//! The accumulator of unspent outputs: a Utreexo forest, and changes to it.
use rustreexo::accumulator::mem_forest::MemForest;
use rustreexo::accumulator::node_hash::{AccumulatorHash, BitcoinNodeHash};
use vstd::arithmetic::power2::{lemma2_to64, lemma2_to64_rest, lemma_pow2_unfold, pow2};
use vstd::prelude::*;

use crate::error::{Error, Fault, Halt};
use crate::ids::{Hash256, NodeHash};
use crate::order::{arrangement, arrangement_is, arranges, is_strict};

verus! {

/// A proof that leaves stand in the accumulator.
pub struct Proof {
    pub targets: Vec<u64>,
    pub hashes: Vec<NodeHash>,
}

#[verifier::ext_equal]
pub struct ProofView {
    pub targets: Seq<u64>,
    pub hashes: Seq<NodeHash>,
}

impl DeepView for Proof {
    type V = ProofView;

    open spec fn deep_view(&self) -> ProofView {
        ProofView { targets: self.targets@, hashes: self.hashes@ }
    }
}

impl Clone for Proof {
    fn clone(&self) -> (r: Proof)
        ensures
            r.deep_view() == self.deep_view(),
    {
        let targets = self.targets.clone();
        assert(targets@ =~= self.targets@);
        let mut hashes: Vec<NodeHash> = Vec::new();
        let n: usize = self.hashes.len();
        for i in 0..n
            invariant
                n == self.hashes@.len(),
                hashes@ =~= self.hashes@.take(i as int),
        {
            hashes.push(self.hashes[i]);
        }
        assert(hashes@ =~= self.hashes@);
        Proof { targets, hashes }
    }
}

/// The number that the eight bytes from `at` spell, lowest byte first.
pub open spec fn number(b: Seq<u8>, at: int) -> int {
    b[at] + 0x100 * b[at + 1] + 0x1_0000 * b[at + 2] + 0x100_0000 * b[at + 3] + 0x1_0000_0000 * b[at
        + 4] + 0x100_0000_0000 * b[at + 5] + 0x1_0000_0000_0000 * b[at + 6] + 0x100_0000_0000_0000
        * b[at + 7]
}

/// A forest has fewer leaves than this, counting those that were taken out.
pub const LEAVES_LIMIT: u64 = 0x2000_0000_0000_0000;

/// How many bits of `n` are set.
pub open spec fn set_bits(n: nat) -> nat
    decreases n,
{
    if n == 0 {
        0
    } else {
        n % 2 + set_bits(n / 2)
    }
}

/// The number that the eight bytes from `at` spell, highest byte first.
pub open spec fn word(b: Seq<u8>, at: int) -> int {
    0x100_0000_0000_0000 * b[at] + 0x1_0000_0000_0000 * b[at + 1] + 0x100_0000_0000 * b[at + 2]
        + 0x1_0000_0000 * b[at + 3] + 0x100_0000 * b[at + 4] + 0x1_0000 * b[at + 5] + 0x100 * b[at
        + 6] + b[at + 7]
}

/// The hash of the node that is written at `at`: the thirty-two bytes after its
/// kind and the byte that says that it has one.
pub open spec fn node_hash(b: Seq<u8>, at: int) -> Hash256 {
    Hash256 {
        hi: (0x1_0000_0000_0000_0000 * word(b, at + 9) + word(b, at + 17)) as u128,
        lo: (0x1_0000_0000_0000_0000 * word(b, at + 25) + word(b, at + 33)) as u128,
    }
}

/// Where the tree that is written from `at` on ends, if it has no more than
/// `rows` rows above its leaves. A node is its kind in eight bytes, 1 for a leaf
/// and 0 for a branch; a byte, which is 2; and its hash. A branch is followed by
/// its two children, and its hash is that of theirs.
pub open spec fn tree_end(b: Seq<u8>, at: int, rows: nat) -> Option<int>
    decreases rows,
{
    if at < 0 || at + 41 > b.len() || number(b, at) > 1 || b[at + 8] != 2 {
        None
    } else if number(b, at) == 1 {
        Some(at + 41)
    } else if rows == 0 {
        None
    } else {
        match tree_end(b, at + 41, (rows - 1) as nat) {
            None => None,
            Some(middle) => match tree_end(b, middle, (rows - 1) as nat) {
                None => None,
                Some(end) => if node_hash(b, at) == parent_hash(
                    node_hash(b, at + 41),
                    node_hash(b, middle),
                ) {
                    Some(end)
                } else {
                    None
                },
            },
        }
    }
}

/// Where the root that is written from `at` on ends. The root of a tree that
/// was emptied is a branch without a hash: nine zeros.
pub open spec fn root_end(b: Seq<u8>, at: int, rows: nat) -> Option<int> {
    if 0 <= at && at + 9 <= b.len() && number(b, at) == 0 && b[at + 8] == 0 {
        Some(at + 9)
    } else {
        tree_end(b, at, rows)
    }
}

/// Where the roots that are written from `at` on end: one for each set bit of
/// `leaves`, highest first. A tree for the bit whose worth is `size` has no more
/// than `row` rows above its leaves.
pub open spec fn roots_end(b: Seq<u8>, at: int, leaves: nat, row: nat, size: nat) -> Option<int>
    decreases row,
{
    if leaves >= size {
        match root_end(b, at, row) {
            None => None,
            Some(next) => if row == 0 {
                if leaves == size {
                    Some(next)
                } else {
                    None
                }
            } else {
                roots_end(b, next, (leaves - size) as nat, (row - 1) as nat, size / 2)
            },
        }
    } else if row == 0 {
        Some(at)
    } else {
        roots_end(b, at, leaves, (row - 1) as nat, size / 2)
    }
}

/// These bytes are a forest: how many leaves were ever added, how many roots
/// there are, and the roots. There is a root for each set bit of the number of
/// leaves, which stays below `LEAVES_LIMIT`.
pub open spec fn is_forest(b: Seq<u8>) -> bool {
    &&& b.len() >= 16
    &&& number(b, 8) == set_bits(number(b, 0) as nat)
    &&& roots_end(b, 16, number(b, 0) as nat, 60, 0x1000_0000_0000_0000) == Some(b.len() as int)
}

/// The hashes of the nodes that are written from `at` on, in order.
pub open spec fn hashes_from(b: Seq<u8>, at: int) -> Seq<Hash256>
    decreases b.len() - at,
{
    if at < 0 || at + 9 > b.len() {
        Seq::empty()
    } else if b[at + 8] != 2 {
        hashes_from(b, at + 9)
    } else if at + 41 > b.len() {
        Seq::empty()
    } else {
        seq![node_hash(b, at)] + hashes_from(b, at + 41)
    }
}

/// No two nodes of a forest have the same hash.
pub open spec fn nodes_differ(forest: Seq<u8>) -> bool {
    hashes_from(forest, 16).no_duplicates()
}

/// A leaf where it stands in a forest: its hash, its row, and, if it is the right
/// child of a branch, the hash of the left one.
#[derive(Clone, Copy)]
pub struct Leaf {
    pub hash: Hash256,
    pub row: u8,
    pub left: Option<Hash256>,
}

/// The leaves of the tree that is written from `at` on, in order. Its root is in
/// row `rows`, right of `left` if that is a node.
pub open spec fn tree_leaves(b: Seq<u8>, at: int, rows: nat, left: Option<Hash256>) -> Seq<Leaf>
    decreases rows,
{
    if number(b, at) == 1 {
        seq![Leaf { hash: node_hash(b, at), row: rows as u8, left }]
    } else if rows == 0 {
        Seq::empty()
    } else {
        let below = (rows - 1) as nat;
        tree_leaves(b, at + 41, below, None) + tree_leaves(
            b,
            tree_end(b, at + 41, below)->0,
            below,
            Some(node_hash(b, at + 41)),
        )
    }
}

/// The leaves below the root that is written from `at` on.
pub open spec fn root_leaves(b: Seq<u8>, at: int, rows: nat) -> Seq<Leaf> {
    if number(b, at) == 0 && b[at + 8] == 0 {
        Seq::empty()
    } else {
        tree_leaves(b, at, rows, None)
    }
}

/// The leaves below the roots that are written from `at` on: one root for each set
/// bit of `leaves`, highest first.
pub open spec fn roots_leaves(b: Seq<u8>, at: int, leaves: nat, row: nat, size: nat) -> Seq<Leaf>
    decreases row,
{
    if leaves >= size {
        let first = root_leaves(b, at, row);
        if row == 0 {
            first
        } else {
            first + roots_leaves(
                b,
                root_end(b, at, row)->0,
                (leaves - size) as nat,
                (row - 1) as nat,
                size / 2,
            )
        }
    } else if row == 0 {
        Seq::empty()
    } else {
        roots_leaves(b, at, leaves, (row - 1) as nat, size / 2)
    }
}

/// The leaves of a forest, in the order in which they are written.
pub open spec fn forest_leaves(forest: Seq<u8>) -> Seq<Leaf> {
    roots_leaves(forest, 16, number(forest, 0) as nat, 60, 0x1000_0000_0000_0000)
}

/// The last place below `n` at which `hash` stands.
pub open spec fn last_place(leaves: Seq<Leaf>, hash: Hash256, n: nat) -> Option<int>
    decreases n,
{
    if n == 0 {
        None
    } else if leaves[n - 1].hash == hash {
        Some(n - 1)
    } else {
        last_place(leaves, hash, (n - 1) as nat)
    }
}

/// Where `leaf` stands among the leaves of a forest: the last place, if there are
/// more.
pub open spec fn place(forest: Seq<u8>, leaf: Hash256) -> Option<int> {
    last_place(forest_leaves(forest), leaf, forest_leaves(forest).len())
}

/// `leaf` is a leaf of a forest.
pub open spec fn holds_leaf(forest: Seq<u8>, leaf: Hash256) -> bool {
    place(forest, leaf) is Some
}

/// `leaf` cannot be told from the node to its left, where it stands.
pub open spec fn is_stuck(forest: Seq<u8>, leaf: Hash256) -> bool {
    place(forest, leaf) is Some && forest_leaves(forest)[place(forest, leaf)->0].left == Some(leaf)
}

/// The order in which leaves are taken out of a forest: lower rows first, and from
/// left to right.
pub open spec fn goes_first(forest: Seq<u8>, a: Hash256, b: Hash256) -> bool {
    let leaves = forest_leaves(forest);
    let (i, j) = (place(forest, a)->0, place(forest, b)->0);
    leaves[i].row < leaves[j].row || (leaves[i].row == leaves[j].row && i < j)
}

/// Leaves in the order in which they are taken out.
pub open spec fn in_turn(forest: Seq<u8>, leaves: Seq<Hash256>) -> Seq<Hash256> {
    arrangement(leaves.to_set(), |a: Hash256, b: Hash256| goes_first(forest, a, b))
}

fn read_number(b: &Vec<u8>, at: usize) -> (r: u64)
    requires
        at + 8 <= b@.len(),
    ensures
        r == number(b@, at as int),
{
    let n: usize = b.len();
    assert(at + 8 <= n);
    let low: u64 = b[at] as u64 + 0x100 * (b[at + 1] as u64) + 0x1_0000 * (b[at + 2] as u64)
        + 0x100_0000 * (b[at + 3] as u64);
    let high: u64 = b[at + 4] as u64 + 0x100 * (b[at + 5] as u64) + 0x1_0000 * (b[at + 6] as u64)
        + 0x100_0000 * (b[at + 7] as u64);
    low + 0x1_0000_0000 * high
}

fn read_word(b: &Vec<u8>, at: usize) -> (r: u64)
    requires
        at + 8 <= b@.len(),
    ensures
        r == word(b@, at as int),
{
    let n: usize = b.len();
    assert(at + 8 <= n);
    let high: u64 = 0x100_0000 * (b[at] as u64) + 0x1_0000 * (b[at + 1] as u64) + 0x100 * (b[at
        + 2] as u64) + b[at + 3] as u64;
    let low: u64 = 0x100_0000 * (b[at + 4] as u64) + 0x1_0000 * (b[at + 5] as u64) + 0x100 * (b[at
        + 6] as u64) + b[at + 7] as u64;
    0x1_0000_0000 * high + low
}

fn read_hash(b: &Vec<u8>, at: usize) -> (r: Hash256)
    requires
        at + 41 <= b@.len(),
    ensures
        r == node_hash(b@, at as int),
{
    let n: usize = b.len();
    assert(at + 41 <= n);
    Hash256 {
        hi: 0x1_0000_0000_0000_0000 * (read_word(b, at + 9) as u128) + read_word(b, at + 17) as u128,
        lo: 0x1_0000_0000_0000_0000 * (read_word(b, at + 25) as u128) + read_word(b, at
            + 33) as u128,
    }
}

fn count_set_bits(n: u64) -> (r: u64)
    ensures
        r == set_bits(n as nat),
        r <= n,
    decreases n,
{
    if n == 0 {
        0
    } else {
        n % 2 + count_set_bits(n / 2)
    }
}

fn find_tree_end(b: &Vec<u8>, at: usize, rows: u8) -> (r: Option<usize>)
    ensures
        match r {
            Some(end) => tree_end(b@, at as int, rows as nat) == Some(end as int) && end <= b@.len(),
            None => tree_end(b@, at as int, rows as nat) is None,
        },
    decreases rows,
{
    let n: usize = b.len();
    if at > n || n - at < 41 || read_number(b, at) > 1 || b[at + 8] != 2 {
        return None;
    }
    if read_number(b, at) == 1 {
        return Some(at + 41);
    }
    if rows == 0 {
        return None;
    }
    let middle: usize = match find_tree_end(b, at + 41, rows - 1) {
        Some(middle) => middle,
        None => {
            return None;
        },
    };
    let end: usize = match find_tree_end(b, middle, rows - 1) {
        Some(end) => end,
        None => {
            return None;
        },
    };
    if read_hash(b, at) == hash_nodes(read_hash(b, at + 41), read_hash(b, middle)) {
        Some(end)
    } else {
        None
    }
}

fn find_root_end(b: &Vec<u8>, at: usize, rows: u8) -> (r: Option<usize>)
    ensures
        match r {
            Some(end) => root_end(b@, at as int, rows as nat) == Some(end as int) && end <= b@.len(),
            None => root_end(b@, at as int, rows as nat) is None,
        },
{
    let n: usize = b.len();
    if at <= n && n - at >= 9 && read_number(b, at) == 0 && b[at + 8] == 0 {
        Some(at + 9)
    } else {
        find_tree_end(b, at, rows)
    }
}

fn check_forest(b: &Vec<u8>) -> (r: bool)
    ensures
        r == is_forest(b@),
{
    if b.len() < 16 {
        return false;
    }
    let leaves: u64 = read_number(b, 0);
    if read_number(b, 8) != count_set_bits(leaves) {
        return false;
    }
    let mut at: usize = 16;
    let mut left: u64 = leaves;
    let mut row: u8 = 60;
    let mut size: u64 = 0x1000_0000_0000_0000;
    while row > 0
        invariant
            b@.len() >= 16,
            at <= b@.len(),
            row <= 60,
            leaves == number(b@, 0),
            roots_end(b@, 16, leaves as nat, 60, 0x1000_0000_0000_0000) == roots_end(
                b@,
                at as int,
                left as nat,
                row as nat,
                size as nat,
            ),
        decreases row,
    {
        if left >= size {
            match find_root_end(b, at, row) {
                Some(next) => {
                    at = next;
                    left = left - size;
                },
                None => {
                    return false;
                },
            }
        }
        row = row - 1;
        size = size / 2;
    }
    if left >= size {
        match find_root_end(b, at, 0) {
            Some(next) => left == size && next == b.len(),
            None => false,
        }
    } else {
        at == b.len()
    }
}

/// Lists the leaves of a tree, and tells where it ends.
fn list_tree(b: &Vec<u8>, at: usize, rows: u8, left: Option<Hash256>, list: &mut Vec<Leaf>) -> (r:
    usize)
    requires
        tree_end(b@, at as int, rows as nat) is Some,
    ensures
        tree_end(b@, at as int, rows as nat) == Some(r as int),
        final(list)@ == old(list)@ + tree_leaves(b@, at as int, rows as nat, left),
        r <= b@.len(),
    decreases rows,
{
    let n: usize = b.len();
    assert(at + 41 <= n);
    if read_number(b, at) == 1 {
        list.push(Leaf { hash: read_hash(b, at), row: rows, left });
        return at + 41;
    }
    let ghost before = list@;
    let middle: usize = list_tree(b, at + 41, rows - 1, None, list);
    let beside = read_hash(b, at + 41);
    let end: usize = list_tree(b, middle, rows - 1, Some(beside), list);
    assert(list@ =~= before + tree_leaves(b@, at as int, rows as nat, left));
    end
}

/// Lists the leaves below a root, and tells where it ends.
fn list_root(b: &Vec<u8>, at: usize, rows: u8, list: &mut Vec<Leaf>) -> (r: usize)
    requires
        root_end(b@, at as int, rows as nat) is Some,
    ensures
        root_end(b@, at as int, rows as nat) == Some(r as int),
        final(list)@ == old(list)@ + root_leaves(b@, at as int, rows as nat),
        r <= b@.len(),
{
    let n: usize = b.len();
    assert(at + 9 <= n);
    if read_number(b, at) == 0 && b[at + 8] == 0 {
        assert(list@ + Seq::<Leaf>::empty() =~= list@);
        at + 9
    } else {
        list_tree(b, at, rows, None, list)
    }
}

/// Lists the leaves of a forest.
fn list_leaves(b: &Vec<u8>) -> (r: Vec<Leaf>)
    requires
        is_forest(b@),
    ensures
        r@ == forest_leaves(b@),
{
    let mut list: Vec<Leaf> = Vec::new();
    let mut at: usize = 16;
    let mut left: u64 = read_number(b, 0);
    let mut row: u8 = 60;
    let mut size: u64 = 0x1000_0000_0000_0000;
    assert(list@ + forest_leaves(b@) =~= forest_leaves(b@));
    while row > 0
        invariant
            at <= b@.len(),
            row <= 60,
            roots_end(b@, at as int, left as nat, row as nat, size as nat) is Some,
            forest_leaves(b@) == list@ + roots_leaves(
                b@,
                at as int,
                left as nat,
                row as nat,
                size as nat,
            ),
        decreases row,
    {
        let ghost before = list@;
        if left >= size {
            let ghost rest = roots_leaves(
                b@,
                root_end(b@, at as int, row as nat)->0,
                (left - size) as nat,
                (row - 1) as nat,
                (size / 2) as nat,
            );
            let ghost first = root_leaves(b@, at as int, row as nat);
            at = list_root(b, at, row, &mut list);
            left = left - size;
            assert(before + (first + rest) =~= list@ + rest);
        }
        row = row - 1;
        size = size / 2;
    }
    if left >= size {
        let _ = list_root(b, at, 0, &mut list);
    } else {
        assert(list@ + Seq::<Leaf>::empty() =~= list@);
    }
    list
}

/// Finds the last place of a hash.
fn find_place(leaves: &Vec<Leaf>, hash: Hash256) -> (r: Option<usize>)
    ensures
        match r {
            Some(i) => last_place(leaves@, hash, leaves@.len()) == Some(i as int) && i
                < leaves@.len() && leaves@[i as int].hash == hash,
            None => last_place(leaves@, hash, leaves@.len()) is None,
        },
{
    let mut n: usize = leaves.len();
    while n > 0
        invariant
            n <= leaves@.len(),
            last_place(leaves@, hash, leaves@.len()) == last_place(leaves@, hash, n as nat),
        decreases n,
    {
        if leaves[n - 1].hash == hash {
            return Some(n - 1);
        }
        n = n - 1;
    }
    None
}

/// Tells whether a leaf cannot be told from the node to its left.
fn check_stuck(b: &Vec<u8>, leaf: Hash256) -> (r: bool)
    requires
        is_forest(b@),
    ensures
        r == is_stuck(b@, leaf),
{
    let leaves = list_leaves(b);
    match find_place(&leaves, leaf) {
        Some(i) => leaves[i].left == Some(leaf),
        None => false,
    }
}

/// A leaf that stands somewhere stands where its place says.
proof fn place_is(leaves: Seq<Leaf>, hash: Hash256, n: nat)
    requires
        n <= leaves.len(),
    ensures
        last_place(leaves, hash, n) matches Some(i) ==> 0 <= i < n && leaves[i].hash == hash,
    decreases n,
{
    if n > 0 {
        place_is(leaves, hash, (n - 1) as nat);
    }
}

/// Puts leaves of a forest in the order in which they are taken out.
fn put_in_turn(b: &Vec<u8>, leaves: &Vec<Leaf>, list: &Vec<Hash256>) -> (r: Vec<Hash256>)
    requires
        leaves@ == forest_leaves(b@),
        list@.no_duplicates(),
        forall|i: int| 0 <= i < list@.len() ==> holds_leaf(b@, #[trigger] list@[i]),
    ensures
        r@ == in_turn(b@, list@),
        r@.len() == list@.len(),
        r@.no_duplicates(),
        forall|x: Hash256| list@.contains(x) <==> #[trigger] r@.contains(x),
{
    let ghost forest = b@;
    let ghost before = |x: Hash256, y: Hash256| goes_first(forest, x, y);
    let mut r: Vec<Hash256> = Vec::new();
    let n: usize = list.len();
    for i in 0..n
        invariant
            n == list@.len(),
            forest == b@,
            leaves@ == forest_leaves(forest),
            list@.no_duplicates(),
            forall|j: int| 0 <= j < list@.len() ==> holds_leaf(forest, #[trigger] list@[j]),
            r@.len() == i,
            is_in_turn(forest, r@),
            forall|x: Hash256| #[trigger] r@.contains(x) <==> list@.take(i as int).contains(x),
    {
        let item = list[i];
        let ghost s = r@;
        assert(holds_leaf(forest, list@[i as int]));
        let mut p: usize = 0;
        let mut found = false;
        while p < r.len() && !found
            invariant
                p <= r@.len(),
                s == r@,
                r@.len() == i,
                i < list@.len(),
                item == list@[i as int],
                leaves@ == forest_leaves(forest),
                holds_leaf(forest, item),
                list@.no_duplicates(),
                forall|j: int| 0 <= j < list@.len() ==> holds_leaf(forest, #[trigger] list@[j]),
                forall|x: Hash256| #[trigger] r@.contains(x) <==> list@.take(i as int).contains(x),
                forall|j: int| 0 <= j < p ==> goes_first(forest, #[trigger] s[j], item),
                found ==> p < s.len() && goes_first(forest, item, s[p as int]),
            decreases r@.len() - p + (if found {
                0int
            } else {
                1int
            }),
        {
            proof {
                assert(s.contains(s[p as int]));
                let some = list@.take(i as int);
                let k = choose|k: int| 0 <= k < some.len() && some[k] == s[p as int];
                assert(list@[k] == s[p as int]);
                assert(holds_leaf(forest, list@[k]));
                assert(list@[k] != list@[i as int]);
                place_is(leaves@, s[p as int], leaves@.len());
                place_is(leaves@, item, leaves@.len());
            }
            if precedes(leaves, r[p], item) {
                p = p + 1;
            } else {
                found = true;
            }
        }
        proof {
            insert_keeps_turn(forest, s, p as int, item);
        }
        r.insert(p, item);
        proof {
            let some = list@.take(i as int);
            let more = list@.take(i + 1);
            assert(more =~= some.push(item));
            assert forall|y: Hash256| #[trigger] r@.contains(y) <==> more.contains(y) by {
                if more.contains(y) {
                    let k = choose|k: int| 0 <= k < more.len() && more[k] == y;
                    if k < i {
                        assert(some[k] == y);
                    }
                }
                if some.contains(y) {
                    let k = choose|k: int| 0 <= k < some.len() && some[k] == y;
                    assert(more[k] == y);
                }
                assert(more[i as int] == item);
            }
        }
    }
    assert(list@.take(n as int) =~= list@);
    proof {
        assert forall|i: int, j: int|
            #![trigger r@[i], r@[j]]
            0 <= i < j < r@.len() implies before(r@[i], r@[j]) by {}
        assert forall|x: Hash256| list@.to_set().contains(x) <==> #[trigger] r@.contains(x) by {}
        assert(is_strict(before)) by {
            assert forall|x: Hash256| !#[trigger] before(x, x) by {}
            assert forall|x: Hash256, y: Hash256, z: Hash256| #[trigger]
                before(x, y) && #[trigger] before(y, z) implies before(x, z) by {}
        }
        assert(arranges(r@, list@.to_set(), before));
        arrangement_is(r@, list@.to_set(), before);
        assert forall|i: int, j: int|
            0 <= i < r@.len() && 0 <= j < r@.len() && i != j implies r@[i] != r@[j] by {
            if i < j {
                assert(before(r@[i], r@[j]));
            } else {
                assert(before(r@[j], r@[i]));
            }
        }
    }
    r
}

/// In the order in which they are taken out.
spec fn is_in_turn(forest: Seq<u8>, s: Seq<Hash256>) -> bool {
    forall|i: int, j: int|
        #![trigger s[i], s[j]]
        0 <= i < j < s.len() ==> goes_first(forest, s[i], s[j])
}

/// Tells which of two leaves is taken out first.
fn precedes(leaves: &Vec<Leaf>, a: Hash256, b: Hash256) -> (r: bool)
    requires
        last_place(leaves@, a, leaves@.len()) is Some,
        last_place(leaves@, b, leaves@.len()) is Some,
    ensures
        r == ({
            let i = last_place(leaves@, a, leaves@.len())->0;
            let j = last_place(leaves@, b, leaves@.len())->0;
            leaves@[i].row < leaves@[j].row || (leaves@[i].row == leaves@[j].row && i < j)
        }),
{
    match (find_place(leaves, a), find_place(leaves, b)) {
        (Some(i), Some(j)) => leaves[i].row < leaves[j].row || (leaves[i].row == leaves[j].row && i
            < j),
        _ => false,
    }
}

/// A leaf that is put between those that go before it and those that go after it
/// keeps a list in order.
proof fn insert_keeps_turn(forest: Seq<u8>, s: Seq<Hash256>, p: int, x: Hash256)
    requires
        is_in_turn(forest, s),
        0 <= p <= s.len(),
        forall|i: int| 0 <= i < p ==> goes_first(forest, #[trigger] s[i], x),
        p < s.len() ==> goes_first(forest, x, s[p]),
    ensures
        is_in_turn(forest, s.insert(p, x)),
        forall|y: Hash256| #[trigger] s.insert(p, x).contains(y) <==> s.contains(y) || y == x,
{
    let t = s.insert(p, x);
    assert forall|i: int, j: int|
        #![trigger t[i], t[j]]
        0 <= i < j < t.len() implies goes_first(forest, t[i], t[j]) by {
        if i == p && j > p + 1 {
            assert(goes_first(forest, s[p], s[j - 1]));
        } else if i > p {
            assert(goes_first(forest, s[i - 1], s[j - 1]));
        } else if i < p && j > p {
            assert(goes_first(forest, s[i], s[j - 1]));
        } else if i < p && j < p {
            assert(goes_first(forest, s[i], s[j]));
        }
    }
    assert forall|y: Hash256| #[trigger] t.contains(y) <==> s.contains(y) || y == x by {
        if t.contains(y) {
            let i = choose|i: int| 0 <= i < t.len() && t[i] == y;
            if i < p {
                assert(s[i] == y);
            } else if i > p {
                assert(s[i - 1] == y);
            }
        }
        if s.contains(y) {
            let i = choose|i: int| 0 <= i < s.len() && s[i] == y;
            if i < p {
                assert(t[i] == y);
            } else {
                assert(t[i + 1] == y);
            }
        }
        if y == x {
            assert(t[p] == y);
        }
    }
}

/// The hash of a node whose children have the hashes `left` and `right`.
pub uninterp spec fn parent_hash(left: Hash256, right: Hash256) -> Hash256;

/// Calls `parent_hash` of `rustreexo`'s `BitcoinNodeHash`. The contract says that
/// the hash depends on those of the children alone, and names it.
#[verifier::external_body]
fn hash_nodes(left: Hash256, right: Hash256) -> (r: Hash256)
    ensures
        r == parent_hash(left, right),
{
    let node = |h: Hash256| {
        let bytes = [h.hi.to_be_bytes(), h.lo.to_be_bytes()].concat();
        BitcoinNodeHash::from(bytes.as_slice())
    };
    let half = |b: &[u8]| u128::from_be_bytes(b.try_into().unwrap());
    let parent = BitcoinNodeHash::parent_hash(&node(left), &node(right));
    Hash256 { hi: half(&parent[..16]), lo: half(&parent[16..]) }
}

/// What a forest becomes when `deletions` are taken out of it and then
/// `insertions` added; `None` where it refuses.
pub uninterp spec fn forest_modified(
    forest: Seq<u8>,
    insertions: Seq<Hash256>,
    deletions: Seq<Hash256>,
) -> Option<Seq<u8>>;

/// Whether a proof shows that `leaves` stand in a forest; `None` where the
/// proof cannot be followed.
pub uninterp spec fn forest_verified(
    forest: Seq<u8>,
    targets: Seq<u64>,
    hashes: Seq<NodeHash>,
    leaves: Seq<Hash256>,
) -> Option<bool>;

/// The roots of a forest, largest tree first.
pub uninterp spec fn forest_roots(forest: Seq<u8>) -> Seq<NodeHash>;

/// Calls `rustreexo`'s `MemForest::new`, and `serialize` on what it makes. The
/// contract says that an empty forest is written as sixteen zeros: no leaves,
/// no roots.
#[verifier::external_body]
fn empty_forest() -> (r: Vec<u8>)
    ensures
        r@ == Seq::new(16, |i: int| 0u8),
{
    let mut bytes = Vec::new();
    let _ = MemForest::new().serialize(&mut bytes);
    bytes
}

/// Calls `rustreexo`'s `MemForest::modify`, on a forest that `deserialize`
/// reads and `serialize` writes again. The contract says that the result
/// depends on the forest and the two lists alone, and names it; that the change
/// is refused exactly if what is to be taken out is no leaf; that a forest comes
/// of a forest, as long as its leaves can be counted; and, where no two nodes
/// have the same hash, that it has the leaves that were there or were added, but
/// not the one that was taken out. `modify` tells a leaf from the node beside it
/// by their hashes, so it is not asked to take out a leaf that stands right of a
/// node with the same one; and since it computes hashes anew with each leaf that
/// it takes out, it is asked to take out no more than one.
#[verifier::external_body]
fn modify_forest(forest: &Vec<u8>, insertions: &Vec<Hash256>, deletions: &Vec<Hash256>) -> (r:
    Option<Vec<u8>>)
    requires
        is_forest(forest@),
        number(forest@, 0) + insertions@.len() < LEAVES_LIMIT,
        deletions@.len() <= 1,
        deletions@.len() == 1 ==> !is_stuck(forest@, deletions@[0]),
    ensures
        r is Some <==> forest_modified(forest@, insertions@, deletions@) is Some,
        r is Some ==> r->0@ == forest_modified(forest@, insertions@, deletions@)->0,
        r is Some <==> (deletions@.len() == 1 ==> holds_leaf(forest@, deletions@[0])),
        r is Some ==> is_forest(r->0@),
        r is Some ==> number(r->0@, 0) == number(forest@, 0) + insertions@.len(),
        r is Some && (deletions@.len() == 0 || nodes_differ(forest@)) ==> forall|leaf: Hash256|
         #[trigger]
            holds_leaf(r->0@, leaf) <==> insertions@.contains(leaf) || (holds_leaf(forest@, leaf)
                && !deletions@.contains(leaf)),
{
    let node = |h: &Hash256| {
        let bytes = [h.hi.to_be_bytes(), h.lo.to_be_bytes()].concat();
        BitcoinNodeHash::from(bytes.as_slice())
    };
    let mut forest = MemForest::<BitcoinNodeHash>::deserialize(forest.as_slice()).ok()?;
    let insertions: Vec<BitcoinNodeHash> = insertions.iter().map(node).collect();
    let deletions: Vec<BitcoinNodeHash> = deletions.iter().map(node).collect();
    forest.modify(&insertions, &deletions).ok()?;
    let mut bytes = Vec::new();
    forest.serialize(&mut bytes).ok()?;
    Some(bytes)
}

/// Calls `rustreexo`'s `MemForest::verify`, on a forest that `deserialize`
/// reads. The contract says that the answer depends on the forest, the proof
/// and the leaves alone, and names it.
#[verifier::external_body]
fn verify_forest(forest: &Vec<u8>, proof: &Proof, leaves: &Vec<Hash256>) -> (r: Option<bool>)
    requires
        is_forest(forest@),
    ensures
        r == forest_verified(forest@, proof.targets@, proof.hashes@, leaves@),
{
    let hash = |h: &Hash256| {
        let bytes = [h.hi.to_be_bytes(), h.lo.to_be_bytes()].concat();
        BitcoinNodeHash::from(bytes.as_slice())
    };
    let node = |n: &NodeHash| match n {
        NodeHash::Empty => BitcoinNodeHash::Empty,
        NodeHash::Placeholder => BitcoinNodeHash::Placeholder,
        NodeHash::Hash(h) => hash(h),
    };
    let forest = MemForest::<BitcoinNodeHash>::deserialize(forest.as_slice()).ok()?;
    let hashes = proof.hashes.iter().map(node).collect();
    let proof = rustreexo::accumulator::proof::Proof::new(proof.targets.clone(), hashes);
    forest.verify(&proof, &leaves.iter().map(hash).collect::<Vec<_>>()).ok()
}

/// Calls `rustreexo`'s `MemForest::get_roots`, and `Node::get_data` on each
/// root, on a forest that `deserialize` reads. The contract says that the roots
/// depend on the forest alone, and names them.
#[verifier::external_body]
fn read_forest_roots(forest: &Vec<u8>) -> (r: Vec<NodeHash>)
    requires
        is_forest(forest@),
    ensures
        r@ == forest_roots(forest@),
{
    let half = |b: &[u8]| u128::from_be_bytes(b.try_into().unwrap());
    let forest = MemForest::<BitcoinNodeHash>::deserialize(forest.as_slice()).unwrap();
    let node = |n: BitcoinNodeHash| match n {
        BitcoinNodeHash::Empty => NodeHash::Empty,
        BitcoinNodeHash::Placeholder => NodeHash::Placeholder,
        BitcoinNodeHash::Some(b) => NodeHash::Hash(
            Hash256 { hi: half(&b[..16]), lo: half(&b[16..]) },
        ),
    };
    forest.get_roots().iter().map(|root| node(root.get_data())).collect()
}

/// The accumulator of unspent outputs, as it is kept on disk.
pub struct Accumulator {
    bytes: Vec<u8>,
}

impl View for Accumulator {
    type V = Seq<u8>;

    closed spec fn view(&self) -> Seq<u8> {
        self.bytes@
    }
}

/// An accumulator refused a change, or could not follow a proof.
#[derive(Clone, Copy, PartialEq, Eq, Structural, Debug)]
pub struct UtreexoError;

impl Accumulator {
    #[verifier::type_invariant]
    spec fn holds_forest(&self) -> bool {
        is_forest(self.bytes@)
    }

    /// The accumulator that holds nothing.
    pub fn new() -> (r: Accumulator)
        ensures
            r@ == Seq::new(16, |i: int| 0u8),
    {
        let bytes = empty_forest();
        assert(number(bytes@, 0) == 0);
        assert(number(bytes@, 8) == 0);
        proof {
            reveal_with_fuel(roots_end, 61);
        }
        Accumulator { bytes }
    }

    /// Reads an accumulator back. There is one exactly if the bytes are a
    /// forest.
    pub fn from_bytes(bytes: Vec<u8>) -> (r: Option<Accumulator>)
        ensures
            r is Some <==> is_forest(bytes@),
            r is Some ==> r->0@ == bytes@,
    {
        if check_forest(&bytes) {
            Some(Accumulator { bytes })
        } else {
            None
        }
    }

    /// The accumulator's bytes.
    pub fn bytes(&self) -> (r: &Vec<u8>)
        ensures
            r@ == self@,
            is_forest(r@),
    {
        proof {
            use_type_invariant(self);
        }
        &self.bytes
    }

    /// Tells whether `proof` shows that `leaves` stand in the accumulator.
    pub fn verify(&self, proof: &Proof, leaves: &Vec<Hash256>) -> (r: Result<bool, UtreexoError>)
        ensures
            match r {
                Ok(holds) => forest_verified(
                    self@,
                    proof.deep_view().targets,
                    proof.deep_view().hashes,
                    leaves@,
                ) == Some(holds),
                Err(_) => forest_verified(
                    self@,
                    proof.deep_view().targets,
                    proof.deep_view().hashes,
                    leaves@,
                ) is None,
            },
    {
        proof {
            use_type_invariant(self);
        }
        match verify_forest(&self.bytes, proof, leaves) {
            Some(holds) => Ok(holds),
            None => Err(UtreexoError),
        }
    }

    /// The accumulator with a change made to it. What is to be taken out is taken
    /// out one by one, before anything is added: what stands in a lower row first,
    /// and from left to right. A change that takes out what is not there is
    /// refused. One that takes out a leaf that cannot be told from the node to its
    /// left, or that adds more leaves than can be counted, is not made either.
    pub fn with_diff(&self, diff: &AccumulatorDiff) -> (r: Result<Accumulator, Fault>)
        ensures
            match r {
                Ok(a) => diff@.applied(self@) == Ok::<Seq<u8>, Fault>(a@),
                Err(e) => diff@.applied(self@) == Err::<Seq<u8>, Fault>(e),
            },
            r is Ok && diff@.stays_apart(self@) ==> forall|leaf: Hash256| #[trigger]
                holds_leaf(r->Ok_0@, leaf) <==> diff@.insertions.contains(leaf) || (holds_leaf(
                    self@,
                    leaf,
                ) && !diff@.deletions.contains(leaf)),
            diff@.stays_apart(self@) ==> (r == Err::<Accumulator, Fault>(
                Fault::Error(Error::Utreexo(UtreexoError)),
            ) <==> diff@.is_missing(self@)),
    {
        proof {
            use_type_invariant(self);
            use_type_invariant(diff);
        }
        let ghost forest = self@;
        let ghost deletions = diff.deletions@;
        let leaves = list_leaves(&self.bytes);
        let n: usize = diff.deletions.len();
        for i in 0..n
            invariant
                n == diff.deletions@.len(),
                deletions == diff.deletions@,
                forest == self@,
                leaves@ == forest_leaves(forest),
                forall|j: int| 0 <= j < i ==> holds_leaf(forest, #[trigger] deletions[j]),
        {
            if find_place(&leaves, diff.deletions[i]).is_none() {
                assert(!holds_leaf(forest, deletions[i as int]));
                assert(diff@.is_missing(forest));
                return Err(Fault::Error(Error::Utreexo(UtreexoError)));
            }
        }
        assert(!diff@.is_missing(forest));
        let turn = put_in_turn(&self.bytes, &leaves, &diff.deletions);
        let ghost order = turn@;
        assert forall|j: int| 0 <= j < n implies holds_leaf(forest, #[trigger] order[j]) by {
            assert(order.contains(order[j]));
            let k = choose|k: int| 0 <= k < deletions.len() && deletions[k] == order[j];
            assert(holds_leaf(forest, deletions[k]));
        }
        let mut bytes: Vec<u8> = self.bytes.clone();
        assert(bytes@ =~= forest);
        for i in 0..n
            invariant
                n == turn@.len(),
                order == turn@,
                order == in_turn(forest, deletions),
                diff@.deletions == deletions,
                forest == self@,
                order.no_duplicates(),
                !diff@.is_missing(forest),
                is_forest(bytes@),
                number(bytes@, 0) == number(forest, 0),
                taken_out(forest, order, i as nat) == Ok::<Seq<u8>, Fault>(bytes@),
                forall|j: int| 0 <= j < n ==> holds_leaf(forest, #[trigger] order[j]),
                diff@.stays_apart(forest) ==> forall|leaf: Hash256| #[trigger]
                    holds_leaf(bytes@, leaf) <==> holds_leaf(forest, leaf) && !order.take(
                        i as int,
                    ).contains(leaf),
        {
            let leaf = turn[i];
            if check_stuck(&bytes, leaf) {
                proof {
                    taken_out_stays(forest, order, (i + 1) as nat, n as nat);
                }
                return Err(Fault::Halt(Halt::EqualSiblings));
            }
            let none: Vec<Hash256> = Vec::new();
            let mut one: Vec<Hash256> = Vec::new();
            one.push(leaf);
            assert(none@ =~= Seq::empty());
            assert(one@ =~= seq![leaf]);
            proof {
                assert(holds_leaf(forest, order[i as int]));
                assert(!order.take(i as int).contains(leaf));
                assert(diff@.stays_apart(forest) ==> holds_leaf(bytes@, leaf));
                assert(diff@.stays_apart(forest) ==> nodes_differ(bytes@)) by {
                    if diff@.stays_apart(forest) {
                        assert(is_apart(taken_out(forest, order, i as nat)));
                    }
                }
                leaves_count(bytes@);
            }
            bytes = match modify_forest(&bytes, &none, &one) {
                Some(bytes) => bytes,
                None => {
                    proof {
                        taken_out_stays(forest, order, (i + 1) as nat, n as nat);
                    }
                    return Err(Fault::Error(Error::Utreexo(UtreexoError)));
                },
            };
            proof {
                let before = order.take(i as int);
                let after = order.take(i + 1);
                assert(after =~= before.push(leaf));
                assert forall|l: Hash256|
                    after.contains(l) <==> before.contains(l) || l == leaf by {
                    if before.contains(l) {
                        let k = choose|k: int| 0 <= k < before.len() && before[k] == l;
                        assert(after[k] == l);
                    }
                    assert(after[i as int] == leaf);
                }
                assert(one@.contains(leaf)) by {
                    assert(one@[0] == leaf);
                }
            }
        }
        assert(order.take(n as int) =~= order);
        let count: u64 = read_number(&bytes, 0);
        let more: u64 = diff.insertions.len() as u64;
        if count >= LEAVES_LIMIT || more >= LEAVES_LIMIT - count {
            return Err(Fault::Halt(Halt::OutOfRange));
        }
        let none: Vec<Hash256> = Vec::new();
        assert(none@ =~= Seq::empty());
        match modify_forest(&bytes, &diff.insertions, &none) {
            Some(bytes) => Ok(Accumulator { bytes }),
            None => Err(Fault::Error(Error::Utreexo(UtreexoError))),
        }
    }

    /// Makes a change; a change that is not made leaves things as they are.
    pub fn apply_diff(&mut self, diff: &AccumulatorDiff) -> (r: Result<(), Fault>)
        ensures
            match r {
                Ok(()) => diff@.applied(old(self)@) == Ok::<Seq<u8>, Fault>(final(self)@),
                Err(e) => diff@.applied(old(self)@) == Err::<Seq<u8>, Fault>(e) && final(self)@
                    == old(self)@,
            },
            r is Ok && diff@.stays_apart(old(self)@) ==> forall|leaf: Hash256| #[trigger]
                holds_leaf(final(self)@, leaf) <==> diff@.insertions.contains(leaf) || (holds_leaf(
                    old(self)@,
                    leaf,
                ) && !diff@.deletions.contains(leaf)),
            diff@.stays_apart(old(self)@) ==> (r == Err::<(), Fault>(
                Fault::Error(Error::Utreexo(UtreexoError)),
            ) <==> diff@.is_missing(old(self)@)),
    {
        match self.with_diff(diff) {
            Ok(a) => {
                *self = a;
                Ok(())
            },
            Err(e) => Err(e),
        }
    }

    /// The roots, largest tree first.
    pub fn get_roots(&self) -> (r: Vec<NodeHash>)
        ensures
            r@ == forest_roots(self@),
    {
        proof {
            use_type_invariant(self);
        }
        read_forest_roots(&self.bytes)
    }
}

/// A change to the accumulator: leaves to add and leaves to take out, each in
/// the order in which they came. A leaf that is both added and taken out
/// cancels.
pub struct AccumulatorDiff {
    insertions: Vec<Hash256>,
    deletions: Vec<Hash256>,
}

#[verifier::ext_equal]
pub struct DiffView {
    pub insertions: Seq<Hash256>,
    pub deletions: Seq<Hash256>,
}

impl View for AccumulatorDiff {
    type V = DiffView;

    closed spec fn view(&self) -> DiffView {
        DiffView { insertions: self.insertions@, deletions: self.deletions@ }
    }
}

impl DiffView {
    /// No change.
    pub open spec fn none() -> DiffView {
        DiffView { insertions: Seq::empty(), deletions: Seq::empty() }
    }

    /// With `leaf` added.
    pub open spec fn insert(self, leaf: Hash256) -> DiffView {
        if self.deletions.contains(leaf) {
            DiffView { deletions: self.deletions.remove_value(leaf), ..self }
        } else if self.insertions.contains(leaf) {
            self
        } else {
            DiffView { insertions: self.insertions.push(leaf), ..self }
        }
    }

    /// With `leaf` taken out.
    pub open spec fn remove(self, leaf: Hash256) -> DiffView {
        if self.insertions.contains(leaf) {
            DiffView { insertions: self.insertions.remove_value(leaf), ..self }
        } else if self.deletions.contains(leaf) {
            self
        } else {
            DiffView { deletions: self.deletions.push(leaf), ..self }
        }
    }

    /// Something is to be taken out that is no leaf of a forest.
    pub open spec fn is_missing(self, forest: Seq<u8>) -> bool {
        exists|i: int|
            0 <= i < self.deletions.len() && !holds_leaf(forest, #[trigger] self.deletions[i])
    }

    /// What is to be taken out, in the order in which that is done.
    pub open spec fn turn(self, forest: Seq<u8>) -> Seq<Hash256> {
        in_turn(forest, self.deletions)
    }

    /// As leaves are taken out, no two nodes ever have the same hash.
    pub open spec fn stays_apart(self, forest: Seq<u8>) -> bool {
        forall|i: int|
            0 <= i < self.turn(forest).len() ==> is_apart(
                #[trigger] taken_out(forest, self.turn(forest), i as nat),
            )
    }

    /// What the change makes of a forest, or why it is not made.
    pub open spec fn applied(self, forest: Seq<u8>) -> Result<Seq<u8>, Fault> {
        if self.is_missing(forest) {
            Err(Fault::Error(Error::Utreexo(UtreexoError)))
        } else {
            match taken_out(forest, self.turn(forest), self.turn(forest).len()) {
                Err(e) => Err(e),
                Ok(rest) => if number(rest, 0) + self.insertions.len() < LEAVES_LIMIT {
                    modified(rest, self.insertions, Seq::empty())
                } else {
                    Err(Fault::Halt(Halt::OutOfRange))
                },
            }
        }
    }
}

/// If there is a forest, no two of its nodes have the same hash.
pub open spec fn is_apart(forest: Result<Seq<u8>, Fault>) -> bool {
    forest matches Ok(forest) ==> nodes_differ(forest)
}

/// A forest after a change that it may refuse.
pub open spec fn modified(
    forest: Seq<u8>,
    insertions: Seq<Hash256>,
    deletions: Seq<Hash256>,
) -> Result<Seq<u8>, Fault> {
    match forest_modified(forest, insertions, deletions) {
        Some(forest) => Ok(forest),
        None => Err(Fault::Error(Error::Utreexo(UtreexoError))),
    }
}

/// A forest after the first `n` of `leaves` were taken out, one after the other. A
/// leaf is not taken out where it cannot be told from the node to its left.
pub open spec fn taken_out(forest: Seq<u8>, leaves: Seq<Hash256>, n: nat) -> Result<Seq<u8>, Fault>
    decreases n,
{
    if n == 0 {
        Ok(forest)
    } else {
        match taken_out(forest, leaves, (n - 1) as nat) {
            Err(e) => Err(e),
            Ok(rest) => if is_stuck(rest, leaves[n - 1]) {
                Err(Fault::Halt(Halt::EqualSiblings))
            } else {
                modified(rest, Seq::empty(), seq![leaves[n - 1]])
            },
        }
    }
}

/// What could not be taken out ends the change.
pub(crate) proof fn taken_out_stays(forest: Seq<u8>, leaves: Seq<Hash256>, i: nat, n: nat)
    requires
        i <= n,
        taken_out(forest, leaves, i) is Err,
    ensures
        taken_out(forest, leaves, n) == taken_out(forest, leaves, i),
    decreases n - i,
{
    if i < n {
        taken_out_stays(forest, leaves, i, (n - 1) as nat);
    }
}

/// Trees of all sizes up to a power of two hold less than twice that many leaves.
proof fn roots_bound_leaves(b: Seq<u8>, at: int, leaves: nat, row: nat)
    requires
        roots_end(b, at, leaves, row, pow2(row)) is Some,
    ensures
        leaves < 2 * pow2(row),
    decreases row,
{
    if row == 0 {
        lemma2_to64();
    } else {
        lemma_pow2_unfold(row);
        if leaves >= pow2(row) {
            let next = root_end(b, at, row)->0;
            roots_bound_leaves(b, next, (leaves - pow2(row)) as nat, (row - 1) as nat);
        }
    }
}

/// A forest's leaves can be counted.
proof fn leaves_count(forest: Seq<u8>)
    requires
        is_forest(forest),
    ensures
        number(forest, 0) < LEAVES_LIMIT,
{
    lemma2_to64_rest();
    roots_bound_leaves(forest, 16, number(forest, 0) as nat, 60);
}

/// Without one of them, leaves that differ still differ.
proof fn rest_differs(leaves: Seq<Hash256>, leaf: Hash256)
    requires
        leaves.no_duplicates(),
        leaves.contains(leaf),
    ensures
        leaves.remove_value(leaf).no_duplicates(),
{
    leaves.index_of_first_ensures(leaf);
    let at = leaves.index_of_first(leaf)->0;
    let rest = leaves.remove_value(leaf);
    assert forall|i: int, j: int|
        0 <= i < rest.len() && 0 <= j < rest.len() && i != j implies rest[i] != rest[j] by {
        let before_i = if i < at {
            i
        } else {
            i + 1
        };
        let before_j = if j < at {
            j
        } else {
            j + 1
        };
        assert(rest[i] == leaves[before_i]);
        assert(rest[j] == leaves[before_j]);
    }
}

/// Takes the first `leaf` out of a list, and tells whether there was one.
fn cancel(list: &mut Vec<Hash256>, leaf: Hash256) -> (r: bool)
    ensures
        r == old(list)@.contains(leaf),
        final(list)@ == if r {
            old(list)@.remove_value(leaf)
        } else {
            old(list)@
        },
{
    let n: usize = list.len();
    let mut i: usize = 0;
    while i < n
        invariant
            n == list@.len(),
            i <= n,
            list@ == old(list)@,
            forall|j: int| 0 <= j < i ==> list@[j] != leaf,
        decreases n - i,
    {
        if list[i] == leaf {
            proof {
                list@.index_of_first_ensures(leaf);
                assert(list@[i as int] == leaf);
                let k = list@.index_of_first(leaf)->0;
                assert(k == i);
            }
            let _ = list.remove(i);
            return true;
        }
        i = i + 1;
    }
    false
}

fn holds(list: &Vec<Hash256>, leaf: Hash256) -> (r: bool)
    ensures
        r == list@.contains(leaf),
{
    let n: usize = list.len();
    for i in 0..n
        invariant
            n == list@.len(),
            forall|j: int| 0 <= j < i ==> list@[j] != leaf,
    {
        if list[i] == leaf {
            assert(list@[i as int] == leaf);
            return true;
        }
    }
    false
}

impl AccumulatorDiff {
    #[verifier::type_invariant]
    spec fn takes_out_once(&self) -> bool {
        self.deletions@.no_duplicates()
    }

    /// No change.
    pub fn new() -> (r: AccumulatorDiff)
        ensures
            r@ == DiffView::none(),
    {
        AccumulatorDiff { insertions: Vec::new(), deletions: Vec::new() }
    }

    /// Adds `leaf`.
    pub fn insert(&mut self, leaf: Hash256)
        ensures
            final(self)@ == old(self)@.insert(leaf),
    {
        proof {
            use_type_invariant(&*self);
            if self@.deletions.contains(leaf) {
                rest_differs(self@.deletions, leaf);
            }
        }
        let mut insertions: Vec<Hash256> = Vec::new();
        let mut deletions: Vec<Hash256> = Vec::new();
        std::mem::swap(&mut insertions, &mut self.insertions);
        std::mem::swap(&mut deletions, &mut self.deletions);
        if !cancel(&mut deletions, leaf) && !holds(&insertions, leaf) {
            insertions.push(leaf);
        }
        *self = AccumulatorDiff { insertions, deletions };
    }

    /// Takes `leaf` out.
    pub fn remove(&mut self, leaf: Hash256)
        ensures
            final(self)@ == old(self)@.remove(leaf),
    {
        proof {
            use_type_invariant(&*self);
        }
        let mut insertions: Vec<Hash256> = Vec::new();
        let mut deletions: Vec<Hash256> = Vec::new();
        std::mem::swap(&mut insertions, &mut self.insertions);
        std::mem::swap(&mut deletions, &mut self.deletions);
        if !cancel(&mut insertions, leaf) && !holds(&deletions, leaf) {
            deletions.push(leaf);
        }
        *self = AccumulatorDiff { insertions, deletions };
    }
}

} // verus!
