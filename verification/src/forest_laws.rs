//! How forests are written, and that they are read as they are written.
use vstd::arithmetic::power2::{
    lemma2_to64, lemma2_to64_rest, lemma_pow2_pos, lemma_pow2_strictly_increases, lemma_pow2_unfold,
    pow2,
};
use vstd::prelude::*;

use crate::accumulator::{
    forest_leaves, is_forest, node_hash, number, parent_hash, root_end, root_leaves, roots_end,
    roots_leaves, set_bits, tree_end, tree_leaves, word, Leaf,
};
use crate::ids::Hash256;

verus! {

/// A tree of a forest. Each node has the thirty-two bytes of its hash.
pub enum Tree {
    Leaf { bytes: Seq<u8> },
    Branch { bytes: Seq<u8>, left: Box<Tree>, right: Box<Tree> },
}

/// The number that bytes spell, highest first.
pub open spec fn spelled(bytes: Seq<u8>) -> int
    decreases bytes.len(),
{
    if bytes.len() == 0 {
        0
    } else {
        0x100 * spelled(bytes.drop_last()) + bytes.last()
    }
}

/// The number that bytes spell, lowest first.
pub open spec fn counted(bytes: Seq<u8>) -> int
    decreases bytes.len(),
{
    if bytes.len() == 0 {
        0
    } else {
        bytes[0] + 0x100 * counted(bytes.drop_first())
    }
}

/// The hash of thirty-two bytes.
pub open spec fn hash_of(bytes: Seq<u8>) -> Hash256 {
    Hash256 {
        hi: spelled(bytes.subrange(0, 16)) as u128,
        lo: spelled(bytes.subrange(16, 32)) as u128,
    }
}

/// The bytes of a node.
pub open spec fn node_bytes(tree: Tree) -> Seq<u8> {
    match tree {
        Tree::Leaf { bytes } => bytes,
        Tree::Branch { bytes, .. } => bytes,
    }
}

/// A node as it is written: its kind, that it has a hash, and its hash.
pub open spec fn node_written(kind: u8, bytes: Seq<u8>) -> Seq<u8> {
    seq![kind, 0, 0, 0, 0, 0, 0, 0, 2] + bytes
}

/// A tree as it is written: a node before the nodes below it, left before right.
pub open spec fn tree_written(tree: Tree) -> Seq<u8>
    decreases tree,
{
    match tree {
        Tree::Leaf { bytes } => node_written(1, bytes),
        Tree::Branch { bytes, left, right } => node_written(0, bytes) + tree_written(*left)
            + tree_written(*right),
    }
}

/// Every node has thirty-two bytes.
pub open spec fn has_hashes(tree: Tree) -> bool
    decreases tree,
{
    match tree {
        Tree::Leaf { bytes } => bytes.len() == 32,
        Tree::Branch { bytes, left, right } => bytes.len() == 32 && has_hashes(*left)
            && has_hashes(*right),
    }
}

/// The hash of every branch is that of its children.
pub open spec fn is_hashed(tree: Tree) -> bool
    decreases tree,
{
    match tree {
        Tree::Leaf { .. } => true,
        Tree::Branch { bytes, left, right } => is_hashed(*left) && is_hashed(*right) && hash_of(
            bytes,
        ) == parent_hash(hash_of(node_bytes(*left)), hash_of(node_bytes(*right))),
    }
}

/// No leaf of a tree stands more than so many rows below its root.
pub open spec fn fits_in(tree: Tree, rows: nat) -> bool
    decreases tree,
{
    match tree {
        Tree::Leaf { .. } => true,
        Tree::Branch { left, right, .. } => rows > 0 && fits_in(*left, (rows - 1) as nat)
            && fits_in(*right, (rows - 1) as nat),
    }
}

/// The leaves of a tree whose root is in row `rows`, from left to right, each with its row and
/// the node to its left if it is a right child.
pub open spec fn leaves_below(tree: Tree, rows: nat, beside: Option<Hash256>) -> Seq<Leaf>
    decreases tree,
{
    match tree {
        Tree::Leaf { bytes } => seq![Leaf { hash: hash_of(bytes), row: rows as u8, left: beside }],
        Tree::Branch { left, right, .. } => leaves_below(*left, (rows - 1) as nat, None)
            + leaves_below(*right, (rows - 1) as nat, Some(hash_of(node_bytes(*left)))),
    }
}

/// Eight bytes spell the number that they count, lowest first.
pub proof fn numbers_are_counted(b: Seq<u8>, at: int)
    requires
        0 <= at,
        at + 8 <= b.len(),
    ensures
        number(b, at) == counted(b.subrange(at, at + 8)),
{
    reveal_with_fuel(counted, 9);
    let s = b.subrange(at, at + 8);
    let s1 = s.drop_first();
    let s2 = s1.drop_first();
    let s3 = s2.drop_first();
    let s4 = s3.drop_first();
    let s5 = s4.drop_first();
    let s6 = s5.drop_first();
    let s7 = s6.drop_first();
    assert(s7.drop_first().len() == 0);
    assert(s1[0] == b[at + 1] && s2[0] == b[at + 2] && s3[0] == b[at + 3] && s4[0] == b[at + 4]);
    assert(s5[0] == b[at + 5] && s6[0] == b[at + 6] && s7[0] == b[at + 7] && s[0] == b[at]);
}

/// Sixteen bytes spell what two words of eight spell.
proof fn half_is_spelled(b: Seq<u8>, at: int)
    requires
        0 <= at,
        at + 16 <= b.len(),
    ensures
        spelled(b.subrange(at, at + 16)) == 0x1_0000_0000_0000_0000 * word(
            b,
            at,
        ) + word(b, at + 8),
{
    spelled_by_eight(b, at, 0);
    spelled_by_eight(b, at, 8);
}

/// Eight bytes more.
proof fn spelled_by_eight(b: Seq<u8>, at: int, n: int)
    requires
        0 <= at,
        0 <= n,
        at + n + 8 <= b.len(),
    ensures
        spelled(b.subrange(at, at + n + 8)) == 0x1_0000_0000_0000_0000 * spelled(
            b.subrange(at, at + n),
        ) + word(b, at + n),
{
    spelled_one_more(b, at, n);
    spelled_one_more(b, at, n + 1);
    spelled_one_more(b, at, n + 2);
    spelled_one_more(b, at, n + 3);
    spelled_one_more(b, at, n + 4);
    spelled_one_more(b, at, n + 5);
    spelled_one_more(b, at, n + 6);
    spelled_one_more(b, at, n + 7);
}

/// One byte more.
proof fn spelled_one_more(b: Seq<u8>, at: int, n: int)
    requires
        0 <= at,
        0 <= n,
        at + n < b.len(),
    ensures
        spelled(b.subrange(at, at + n + 1)) == 0x100 * spelled(b.subrange(at, at + n)) + b[at + n],
{
    assert(b.subrange(at, at + n + 1).drop_last() =~= b.subrange(at, at + n));
}

/// The hash of a node is that of the thirty-two bytes after its kind and the byte that says
/// that it has one, highest first.
pub proof fn hashes_are_spelled(b: Seq<u8>, at: int)
    requires
        0 <= at,
        at + 41 <= b.len(),
    ensures
        node_hash(b, at) == hash_of(b.subrange(at + 9, at + 41)),
{
    let bytes = b.subrange(at + 9, at + 41);
    half_is_spelled(b, at + 9);
    half_is_spelled(b, at + 25);
    assert(bytes.subrange(0, 16) =~= b.subrange(at + 9, at + 25));
    assert(bytes.subrange(16, 32) =~= b.subrange(at + 25, at + 41));
}

/// Bytes are written somewhere among others.
pub open spec fn is_written_at(b: Seq<u8>, at: int, bytes: Seq<u8>) -> bool {
    &&& 0 <= at
    &&& at + bytes.len() <= b.len()
    &&& b.subrange(at, at + bytes.len()) == bytes
}

/// A node is read as it is written.
proof fn node_is_read(b: Seq<u8>, at: int, kind: u8, bytes: Seq<u8>)
    requires
        bytes.len() == 32,
        is_written_at(b, at, node_written(kind, bytes)),
    ensures
        number(b, at) == kind,
        b[at + 8] == 2,
        node_hash(b, at) == hash_of(bytes),
{
    let node = node_written(kind, bytes);
    let read = b.subrange(at, at + 41);
    assert(read[0] == b[at] && read[1] == b[at + 1] && read[2] == b[at + 2]);
    assert(read[3] == b[at + 3] && read[4] == b[at + 4] && read[5] == b[at + 5]);
    assert(read[6] == b[at + 6] && read[7] == b[at + 7] && read[8] == b[at + 8]);
    assert(node[0] == kind && node[1] == 0 && node[2] == 0 && node[3] == 0 && node[4] == 0);
    assert(node[5] == 0 && node[6] == 0 && node[7] == 0 && node[8] == 2);
    hashes_are_spelled(b, at);
    assert(b.subrange(at + 9, at + 41) =~= bytes) by {
        assert forall|j: int| 0 <= j < 32 implies b.subrange(at + 9, at + 41)[j] == bytes[j] by {
            assert(read[9 + j] == b[at + 9 + j]);
            assert(node[9 + j] == bytes[j]);
        }
    }
}

/// A branch is read as its children are.
proof fn branch_is_read(
    b: Seq<u8>,
    at: int,
    rows: nat,
    middle: int,
    good_left: bool,
    good_right: bool,
    end: int,
)
    requires
        0 <= at,
        at + 41 <= b.len(),
        number(b, at) == 0,
        b[at + 8] == 2,
        rows > 0,
        tree_end(b, at + 41, (rows - 1) as nat) == if good_left {
            Some(middle)
        } else {
            None
        },
        tree_end(b, middle, (rows - 1) as nat) == if good_right {
            Some(end)
        } else {
            None
        },
    ensures
        tree_end(b, at, rows) == if good_left && good_right && node_hash(b, at) == parent_hash(
            node_hash(b, at + 41),
            node_hash(b, middle),
        ) {
            Some(end)
        } else {
            None
        },
{
}

/// The parts of a branch stand where it is written, one after the other.
proof fn branch_is_written(b: Seq<u8>, at: int, node: Seq<u8>, l: Seq<u8>, r: Seq<u8>)
    requires
        is_written_at(b, at, node + l + r),
    ensures
        is_written_at(b, at, node),
        is_written_at(b, at + node.len(), l),
        is_written_at(b, at + node.len() + l.len(), r),
{
    let all = node + l + r;
    let read = b.subrange(at, at + all.len());
    assert forall|j: int| 0 <= j < all.len() implies b[at + j] == #[trigger] all[j] by {
        assert(read[j] == all[j]);
    }
    assert(b.subrange(at, at + node.len()) =~= node) by {
        assert forall|j: int| 0 <= j < node.len() implies b[at + j] == #[trigger] node[j] by {
            assert(all[j] == node[j]);
        }
    }
    let to_l = at + node.len();
    assert(b.subrange(to_l, to_l + l.len()) =~= l) by {
        assert forall|j: int| 0 <= j < l.len() implies b[to_l + j] == #[trigger] l[j] by {
            assert(all[node.len() + j] == l[j]);
        }
    }
    let to_r = to_l + l.len();
    assert(b.subrange(to_r, to_r + r.len()) =~= r) by {
        assert forall|j: int| 0 <= j < r.len() implies b[to_r + j] == #[trigger] r[j] by {
            assert(all[node.len() + l.len() + j] == r[j]);
        }
    }
}

/// The leaves of a branch are those of its children.
proof fn branch_has_leaves(b: Seq<u8>, at: int, rows: nat, middle: int, beside: Option<Hash256>)
    requires
        number(b, at) == 0,
        rows > 0,
        tree_end(b, at + 41, (rows - 1) as nat) == Some(middle),
    ensures
        tree_leaves(b, at, rows, beside) == tree_leaves(b, at + 41, (rows - 1) as nat, None)
            + tree_leaves(b, middle, (rows - 1) as nat, Some(node_hash(b, at + 41))),
{
}

/// A branch does not end within no rows.
proof fn branch_needs_rows(b: Seq<u8>, at: int)
    requires
        number(b, at) == 0,
    ensures
        tree_end(b, at, 0) is None,
{
}

/// A leaf is read where it is written.
proof fn leaf_is_read(b: Seq<u8>, at: int, bytes: Seq<u8>, rows: nat, beside: Option<Hash256>)
    requires
        bytes.len() == 32,
        is_written_at(b, at, node_written(1, bytes)),
    ensures
        node_hash(b, at) == hash_of(bytes),
        tree_end(b, at, rows) == Some(at + 41),
        tree_leaves(b, at, rows, beside) == seq![
            Leaf { hash: hash_of(bytes), row: rows as u8, left: beside },
        ],
{
    node_is_read(b, at, 1, bytes);
}

/// The hash of the node that a tree begins with is read where it is written.
proof fn top_is_read(b: Seq<u8>, at: int, tree: Tree)
    requires
        has_hashes(tree),
        is_written_at(b, at, tree_written(tree)),
    ensures
        node_hash(b, at) == hash_of(node_bytes(tree)),
        at + 41 <= b.len(),
        b[at + 8] == 2,
        number(b, at) == if tree is Leaf {
            1int
        } else {
            0int
        },
{
    match tree {
        Tree::Leaf { bytes } => {
            node_is_read(b, at, 1, bytes);
        },
        Tree::Branch { bytes, left, right } => {
            branch_is_written(
                b,
                at,
                node_written(0, bytes),
                tree_written(*left),
                tree_written(*right),
            );
            node_is_read(b, at, 0, bytes);
        },
    }
}

/// A tree that is written somewhere is read there exactly if the hashes of its branches are
/// those of their children and it has no more rows than it may have. It ends where it was
/// written to, and its leaves are those that it has, in order.
pub proof fn trees_are_read_as_written(
    b: Seq<u8>,
    at: int,
    tree: Tree,
    rows: nat,
    beside: Option<Hash256>,
)
    requires
        has_hashes(tree),
        is_written_at(b, at, tree_written(tree)),
    ensures
        node_hash(b, at) == hash_of(node_bytes(tree)),
        tree_end(b, at, rows) == if is_hashed(tree) && fits_in(tree, rows) {
            Some(at + tree_written(tree).len())
        } else {
            None
        },
        is_hashed(tree) && fits_in(tree, rows) ==> tree_leaves(b, at, rows, beside)
            == leaves_below(tree, rows, beside),
    decreases tree,
{
    top_is_read(b, at, tree);
    match tree {
        Tree::Leaf { bytes } => {
            leaf_is_read(b, at, bytes, rows, beside);
        },
        Tree::Branch { bytes, left, right } => {
            let node = node_written(0, bytes);
            let l = tree_written(*left);
            let r = tree_written(*right);
            let middle = at + 41 + l.len();
            branch_is_written(b, at, node, l, r);
            if rows == 0 {
                branch_needs_rows(b, at);
            } else {
                let below = (rows - 1) as nat;
                let hash = Some(hash_of(node_bytes(*left)));
                let good_left = is_hashed(*left) && fits_in(*left, below);
                let good_right = is_hashed(*right) && fits_in(*right, below);
                trees_are_read_as_written(b, at + 41, *left, below, None);
                trees_are_read_as_written(b, middle, *right, below, hash);
                branch_is_read(b, at, rows, middle, good_left, good_right, middle + r.len());
                if good_left {
                    branch_has_leaves(b, at, rows, middle, beside);
                }
            }
        },
    }
}

/// A root is written as its tree, or as nine zeros where its tree was emptied.
pub open spec fn root_written(root: Option<Tree>) -> Seq<u8> {
    match root {
        Some(tree) => tree_written(tree),
        None => Seq::new(9, |i: int| 0u8),
    }
}

/// A root is read as it is written: that of a tree like the tree; that of an emptied tree ends
/// after its nine zeros, and has no leaves.
pub proof fn roots_are_read_as_written(b: Seq<u8>, at: int, root: Option<Tree>, rows: nat)
    requires
        root matches Some(tree) ==> has_hashes(tree),
        is_written_at(b, at, root_written(root)),
    ensures
        match root {
            Some(tree) => {
                &&& root_end(b, at, rows) == if is_hashed(tree) && fits_in(tree, rows) {
                    Some(at + root_written(root).len())
                } else {
                    None
                }
                &&& is_hashed(tree) && fits_in(tree, rows) ==> root_leaves(b, at, rows)
                    == leaves_below(tree, rows, None)
            },
            None => root_end(b, at, rows) == Some(at + 9) && root_leaves(b, at, rows) == Seq::<
                Leaf,
            >::empty(),
        },
{
    match root {
        Some(tree) => {
            top_is_read(b, at, tree);
            trees_are_read_as_written(b, at, tree, rows, None);
        },
        None => {
            let written = root_written(root);
            let read = b.subrange(at, at + 9);
            assert forall|j: int| 0 <= j < 9 implies #[trigger] b[at + j] == 0 by {
                assert(read[j] == written[j]);
            }
            assert(b[at + 0] == 0 && b[at + 1] == 0 && b[at + 2] == 0 && b[at + 3] == 0);
            assert(b[at + 4] == 0 && b[at + 5] == 0 && b[at + 6] == 0 && b[at + 7] == 0);
            assert(b[at + 8] == 0);
        },
    }
}

/// Set bits are counted: twice a number has as many as the number, and one more than that has
/// one more.
pub proof fn bits_are_counted(n: nat)
    ensures
        set_bits(0) == 0,
        set_bits(2 * n) == set_bits(n),
        set_bits(2 * n + 1) == set_bits(n) + 1,
{
    assert((2 * n) / 2 == n && (2 * n) % 2 == 0);
    assert((2 * n + 1) / 2 == n && (2 * n + 1) % 2 == 1);
}

// Roots.
/// Trees have a root each, in the order of their rows, highest first.
pub open spec fn go_down(rows: Seq<nat>) -> bool {
    &&& forall|i: int, j: int|
        #![trigger rows[i], rows[j]]
        0 <= i < j < rows.len() ==> rows[i] > rows[j]
    &&& rows.len() > 0 ==> rows[0] <= 60
}

/// How many leaves full trees of these rows have, from the tree at `i` on.
pub open spec fn leaves_from(rows: Seq<nat>, i: nat) -> nat
    decreases rows.len() - i,
{
    if i >= rows.len() {
        0
    } else {
        pow2(rows[i as int]) + leaves_from(rows, i + 1)
    }
}

/// Roots as they are written, one after the other, from the one at `i` on.
pub open spec fn roots_written(roots: Seq<Option<Tree>>, i: nat) -> Seq<u8>
    decreases roots.len() - i,
{
    if i >= roots.len() {
        Seq::empty()
    } else {
        root_written(roots[i as int]) + roots_written(roots, i + 1)
    }
}

/// A root is empty, or that of a tree with right hashes and no more rows than it may have.
pub open spec fn is_right(root: Option<Tree>, rows: nat) -> bool {
    match root {
        Some(tree) => is_hashed(tree) && fits_in(tree, rows),
        None => true,
    }
}

/// All roots from the one at `i` on are right.
pub open spec fn are_right(roots: Seq<Option<Tree>>, rows: Seq<nat>, i: nat) -> bool {
    forall|j: int| i <= j < roots.len() ==> is_right(#[trigger] roots[j], rows[j])
}

/// The leaves of all trees from that of the root at `i` on, in order.
pub open spec fn leaves_of_roots(roots: Seq<Option<Tree>>, rows: Seq<nat>, i: nat) -> Seq<Leaf>
    decreases roots.len() - i,
{
    if i >= roots.len() {
        Seq::empty()
    } else {
        (match roots[i as int] {
            Some(tree) => leaves_below(tree, rows[i as int], None),
            None => Seq::empty(),
        }) + leaves_of_roots(roots, rows, i + 1)
    }
}

/// Trees below a row have fewer leaves than one of the next.
proof fn leaves_stay_below(rows: Seq<nat>, i: nat, row: nat)
    requires
        go_down(rows),
        i < rows.len() ==> rows[i as int] <= row,
    ensures
        leaves_from(rows, i) < 2 * pow2(row),
        i < rows.len() && rows[i as int] == row ==> leaves_from(rows, i) >= pow2(row),
    decreases rows.len() - i,
{
    lemma_pow2_pos(row);
    if i < rows.len() {
        let here = rows[i as int];
        if i + 1 < rows.len() {
            assert(rows[i as int] > rows[(i + 1) as int]);
            leaves_stay_below(rows, i + 1, (here - 1) as nat);
            lemma_pow2_unfold(here);
        } else {
            assert(leaves_from(rows, i + 1) == 0);
        }
        lemma_pow2_pos(here);
        if here < row {
            lemma_pow2_strictly_increases(here, row);
        }
    }
}

/// One more bit is set where a power of two is added to a number below it.
proof fn one_more_bit(row: nat, rest: nat)
    requires
        rest < pow2(row),
    ensures
        set_bits(pow2(row) + rest) == 1 + set_bits(rest),
    decreases row,
{
    if row == 0 {
        lemma2_to64();
        assert(set_bits(1) == 1) by {
            reveal_with_fuel(set_bits, 2);
        }
    } else {
        let half = pow2((row - 1) as nat);
        lemma_pow2_unfold(row);
        lemma_pow2_pos((row - 1) as nat);
        one_more_bit((row - 1) as nat, rest / 2);
        assert((2 * half + rest) / 2 == half + rest / 2);
        assert((2 * half + rest) % 2 == rest % 2);
    }
}

/// There are as many trees as bits are set in the number of their leaves.
proof fn one_bit_each(rows: Seq<nat>, i: nat)
    requires
        go_down(rows),
        i <= rows.len(),
    ensures
        set_bits(leaves_from(rows, i)) == rows.len() - i,
    decreases rows.len() - i,
{
    if i < rows.len() {
        let here = rows[i as int];
        one_bit_each(rows, i + 1);
        lemma_pow2_pos(here);
        if i + 1 < rows.len() {
            assert(rows[i as int] > rows[(i + 1) as int]);
            leaves_stay_below(rows, i + 1, (here - 1) as nat);
            lemma_pow2_unfold(here);
        }
        one_more_bit(here, leaves_from(rows, i + 1));
    }
}

/// Two parts stand where they are written, one after the other.
proof fn both_are_written(b: Seq<u8>, at: int, first: Seq<u8>, rest: Seq<u8>)
    requires
        is_written_at(b, at, first + rest),
    ensures
        is_written_at(b, at, first),
        is_written_at(b, at + first.len(), rest),
{
    let none = Seq::<u8>::empty();
    assert(first + rest =~= first + rest + none);
    branch_is_written(b, at, first, rest, none);
}

/// Roots are read where they are written, from one of them and a row on.
proof fn roots_are_read(
    b: Seq<u8>,
    at: int,
    roots: Seq<Option<Tree>>,
    rows: Seq<nat>,
    i: nat,
    row: nat,
)
    requires
        go_down(rows),
        roots.len() == rows.len(),
        i <= rows.len(),
        i < rows.len() ==> rows[i as int] <= row,
        forall|j: int|
            0 <= j < roots.len() ==> (#[trigger] roots[j] matches Some(tree) ==> has_hashes(tree)),
        is_written_at(b, at, roots_written(roots, i)),
    ensures
        roots_end(b, at, leaves_from(rows, i), row, pow2(row)) == if are_right(roots, rows, i) {
            Some(at + roots_written(roots, i).len())
        } else {
            None
        },
        are_right(roots, rows, i) ==> roots_leaves(b, at, leaves_from(rows, i), row, pow2(row))
            == leaves_of_roots(roots, rows, i),
    decreases row,
{
    leaves_stay_below(rows, i, row);
    lemma_pow2_pos(row);
    if row > 0 {
        lemma_pow2_unfold(row);
    } else {
        lemma2_to64();
    }
    if i < rows.len() && rows[i as int] == row {
        let root = roots[i as int];
        let next = at + root_written(root).len();
        both_are_written(b, at, root_written(root), roots_written(roots, i + 1));
        assert(roots[i as int] == root);
        roots_are_read_as_written(b, at, root, row);
        if i + 1 < rows.len() {
            assert(rows[i as int] > rows[(i + 1) as int]);
        }
        assert(are_right(roots, rows, i) <==> is_right(root, row) && are_right(
            roots,
            rows,
            i + 1,
        )) by {
            if is_right(root, row) && are_right(roots, rows, i + 1) {
                assert forall|j: int| i <= j < roots.len() implies is_right(
                    #[trigger] roots[j],
                    rows[j],
                ) by {
                    if j > i {
                        assert(i + 1 <= j);
                    }
                }
            }
            if are_right(roots, rows, i) {
                assert(is_right(roots[i as int], rows[i as int]));
            }
        }
        if row == 0 {
            assert(i + 1 == rows.len());
            assert(are_right(roots, rows, i + 1));
            assert(leaves_of_roots(roots, rows, i + 1) =~= Seq::empty());
            assert(roots_written(roots, i + 1).len() == 0);
            assert(root_leaves(b, at, row) + Seq::<Leaf>::empty() =~= root_leaves(b, at, row));
        } else {
            roots_are_read(b, next, roots, rows, i + 1, (row - 1) as nat);
        }
    } else if row == 0 {
        assert(i == rows.len());
        assert(are_right(roots, rows, i));
    } else {
        leaves_stay_below(rows, i, (row - 1) as nat);
        roots_are_read(b, at, roots, rows, i, (row - 1) as nat);
    }
}

/// Bytes that begin with the number of the leaves of trees, the number of their roots, and the
/// roots, highest first, are a forest exactly if the number of roots is right, all roots are
/// right, and nothing follows them. Its leaves are those of its trees, in order.
pub proof fn forests_are_read_as_written(b: Seq<u8>, roots: Seq<Option<Tree>>, rows: Seq<nat>)
    requires
        go_down(rows),
        roots.len() == rows.len(),
        forall|j: int|
            0 <= j < roots.len() ==> (#[trigger] roots[j] matches Some(tree) ==> has_hashes(tree)),
        is_written_at(b, 16, roots_written(roots, 0)),
        counted(b.subrange(0, 8)) == leaves_from(rows, 0),
    ensures
        is_forest(b) <==> counted(b.subrange(8, 16)) == roots.len() && are_right(roots, rows, 0)
            && b.len() == 16 + roots_written(roots, 0).len(),
        is_forest(b) ==> forest_leaves(b) == leaves_of_roots(roots, rows, 0),
{
    numbers_are_counted(b, 0);
    numbers_are_counted(b, 8);
    one_bit_each(rows, 0);
    lemma2_to64_rest();
    roots_are_read(b, 16, roots, rows, 0, 60);
}

} // verus!
