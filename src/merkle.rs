//! A binary Merkle tree over BLAKE3 nodes, laid out as a heap, whose root is
//! the node that BLAKE3 would reach over the same chunks.
use vstd::prelude::*;
use std::collections::VecDeque;
use crate::chunk::{chunk_len, chunk_node, chunk_wf, ChunkState};
use crate::compress::{cv_of, parent_node, parent_output, NodeState, Output, CHUNK_LEN, ROOT};

verus! {

/// `2^h`.
pub open spec fn two_pow(h: nat) -> nat
    decreases h,
{
    if h == 0 {
        1
    } else {
        2 * two_pow((h - 1) as nat)
    }
}

/// The number of real nodes at level `k` (leaves at level 0) of a tree over
/// `n` leaves: a level has half as many nodes as the one below, rounded up.
pub open spec fn level_pop(n: nat, k: nat) -> nat
    decreases k,
{
    if k == 0 {
        n
    } else {
        ((level_pop(n, (k - 1) as nat) + 1) / 2) as nat
    }
}

/// The number of levels above the leaves: the least `h` with `n <= 2^h`.
pub open spec fn height(n: nat) -> nat
    decreases n,
{
    if n <= 1 {
        0
    } else {
        height(((n + 1) / 2) as nat) + 1
    }
}

/// The number of leaf slots: the least power of two not below `n` (1 for one leaf).
pub open spec fn padded_leaves(n: nat) -> nat {
    two_pow(height(n))
}

/// The first slot of level `k` in a heap over `n` leaves; the root is slot 1.
pub open spec fn level_start(n: nat, k: nat) -> nat {
    two_pow((height(n) - k) as nat)
}

/// The node at offset `j` of level `k`. Where a node has no real right
/// sibling, its parent is the node itself, not a parent node over it.
pub open spec fn tree_node(
    leaves: Seq<NodeState>,
    key: Seq<u32>,
    flags: u32,
    k: nat,
    j: int,
) -> NodeState
    decreases k,
{
    if k == 0 {
        leaves[j]
    } else if 2 * j + 1 < level_pop(leaves.len(), (k - 1) as nat) {
        parent_node(
            cv_of(tree_node(leaves, key, flags, (k - 1) as nat, 2 * j)),
            cv_of(tree_node(leaves, key, flags, (k - 1) as nat, 2 * j + 1)),
            key,
            flags,
        )
    } else {
        tree_node(leaves, key, flags, (k - 1) as nat, 2 * j)
    }
}

/// The root node of the tree over `leaves`, before the `ROOT` flag is added.
pub open spec fn tree_root(leaves: Seq<NodeState>, key: Seq<u32>, flags: u32) -> NodeState {
    tree_node(leaves, key, flags, height(leaves.len()), 0)
}

/// `p` is a power of two.
pub open spec fn is_power_of_two(p: nat) -> bool
    decreases p,
{
    if p <= 1 {
        p == 1
    } else {
        p % 2 == 0 && is_power_of_two(p / 2)
    }
}

pub proof fn lemma_two_pow_positive(h: nat)
    ensures
        two_pow(h) >= 1,
    decreases h,
{
    if h > 0 {
        lemma_two_pow_positive((h - 1) as nat);
    }
}

pub proof fn lemma_two_pow_monotone(a: nat, b: nat)
    requires
        a <= b,
    ensures
        two_pow(a) <= two_pow(b),
        a < b ==> 2 * two_pow(a) <= two_pow(b),
    decreases b,
{
    lemma_two_pow_positive(b);
    if a < b {
        lemma_two_pow_monotone(a, (b - 1) as nat);
    }
}

pub proof fn lemma_two_pow_is_power_of_two(h: nat)
    ensures
        is_power_of_two(two_pow(h)),
    decreases h,
{
    if h > 0 {
        lemma_two_pow_positive((h - 1) as nat);
        lemma_two_pow_is_power_of_two((h - 1) as nat);
        assert(two_pow(h) / 2 == two_pow((h - 1) as nat));
    }
}

/// `2^(h-1) < n <= 2^h` for `h = height(n)`.
pub proof fn lemma_height_bounds(n: nat)
    requires
        n >= 1,
    ensures
        n <= two_pow(height(n)),
        height(n) > 0 ==> two_pow((height(n) - 1) as nat) < n,
    decreases n,
{
    if n > 1 {
        let m = ((n + 1) / 2) as nat;
        lemma_height_bounds(m);
        lemma_two_pow_positive(height(m));
    }
}

pub proof fn lemma_padded_bounds(n: nat)
    requires
        n >= 1,
    ensures
        n <= padded_leaves(n) < 2 * n,
        level_start(n, 0) == padded_leaves(n),
        is_power_of_two(padded_leaves(n)),
{
    lemma_height_bounds(n);
    lemma_two_pow_is_power_of_two(height(n));
    if height(n) > 0 {
        assert(two_pow(height(n)) == 2 * two_pow((height(n) - 1) as nat));
    }
}

/// Level `k` holds more than half of its slots, and at most all of them.
pub proof fn lemma_level_bounds(n: nat, k: nat)
    requires
        n >= 1,
        k <= height(n),
    ensures
        1 <= level_pop(n, k) <= level_start(n, k),
        k < height(n) ==> level_start(n, k) < 2 * level_pop(n, k),
        k < height(n) ==> level_pop(n, k) >= 2,
        k == height(n) ==> level_pop(n, k) == 1 && level_start(n, k) == 1,
        level_start(n, k) <= padded_leaves(n),
    decreases k,
{
    let h = height(n);
    lemma_two_pow_monotone((h - k) as nat, h);
    if k == 0 {
        lemma_height_bounds(n);
        if h > 0 {
            lemma_two_pow_positive((h - 1) as nat);
        }
    } else {
        lemma_level_bounds(n, (k - 1) as nat);
        lemma_two_pow_positive((h - k) as nat);
        assert(two_pow((h - (k - 1)) as nat) == 2 * two_pow((h - k) as nat));
        if k < h {
            lemma_two_pow_positive((h - k - 1) as nat);
            assert(two_pow((h - k) as nat) == 2 * two_pow((h - k - 1) as nat));
        }
    }
}

/// Slots of distinct real nodes are distinct, and every real slot lies in `[1, 2P)`.
pub proof fn lemma_slots_disjoint(n: nat, k1: nat, j1: int, k2: nat, j2: int)
    requires
        n >= 1,
        k1 < k2 <= height(n),
        0 <= j1 < level_pop(n, k1),
        0 <= j2 < level_pop(n, k2),
    ensures
        level_start(n, k2) + j2 < level_start(n, k1),
{
    lemma_level_bounds(n, k1);
    lemma_level_bounds(n, k2);
    lemma_two_pow_monotone((height(n) - k2) as nat, (height(n) - k1) as nat);
}

/// The offset of the ancestor `d` levels above the node at offset `j`.
pub open spec fn ancestor_offset(j: int, d: nat) -> int
    decreases d,
{
    if d == 0 {
        j
    } else {
        ancestor_offset(j, (d - 1) as nat) / 2
    }
}

/// The node at `(k2, j2)` lies strictly above the node at `(k, j)`.
pub open spec fn strictly_above(k: nat, j: int, k2: nat, j2: int) -> bool {
    k < k2 && ancestor_offset(j, (k2 - k) as nat) == j2
}

pub proof fn lemma_ancestor_step(j: int, d: nat)
    requires
        j >= 0,
    ensures
        ancestor_offset(j, d + 1) == ancestor_offset(j / 2, d),
        ancestor_offset(j, d) >= 0,
    decreases d,
{
    if d > 0 {
        lemma_ancestor_step(j, (d - 1) as nat);
        assert(ancestor_offset(j, d + 1) == ancestor_offset(j, d) / 2);
        assert(ancestor_offset(j / 2, d) == ancestor_offset(j / 2, (d - 1) as nat) / 2);
    } else {
        assert(ancestor_offset(j, 1) == ancestor_offset(j, 0) / 2);
    }
}

/// A node depends only on the leaves below it.
pub proof fn lemma_node_frame(
    l1: Seq<NodeState>,
    l2: Seq<NodeState>,
    key: Seq<u32>,
    flags: u32,
    k: nat,
    j: int,
)
    requires
        l1.len() == l2.len(),
        0 <= j < level_pop(l1.len(), k),
        forall|i: int|
            0 <= i < l1.len() && #[trigger] ancestor_offset(i, k) == j ==> l1[i] == l2[i],
    ensures
        tree_node(l1, key, flags, k, j) == tree_node(l2, key, flags, k, j),
    decreases k,
{
    if k > 0 {
        let k1 = (k - 1) as nat;
        assert forall|i: int|
            0 <= i < l1.len() && #[trigger] ancestor_offset(i, k1) == 2 * j implies l1[i] == l2[i] by {
            assert(ancestor_offset(i, k) == ancestor_offset(i, k1) / 2);
        }
        assert forall|i: int|
            0 <= i < l1.len() && #[trigger] ancestor_offset(i, k1) == 2 * j + 1 implies l1[i]
            == l2[i] by {
            assert(ancestor_offset(i, k) == ancestor_offset(i, k1) / 2);
        }
        lemma_node_frame(l1, l2, key, flags, k1, 2 * j);
        if 2 * j + 1 < level_pop(l1.len(), k1) {
            lemma_node_frame(l1, l2, key, flags, k1, 2 * j + 1);
        }
    } else {
        assert(ancestor_offset(j, 0) == j);
    }
}

/// The ancestor of a real node is real.
pub proof fn lemma_ancestor_real(n: nat, k: nat, j: int, d: nat)
    requires
        0 <= j < level_pop(n, k),
    ensures
        0 <= ancestor_offset(j, d) < level_pop(n, k + d),
    decreases d,
{
    if d > 0 {
        lemma_ancestor_real(n, k, j, (d - 1) as nat);
        assert(k + d - 1 == (k + d - 1) as nat);
    }
}

/// The number of chunks of an input of `len` bytes: an empty input is one empty chunk.
pub open spec fn chunk_count(len: nat) -> nat {
    if len == 0 {
        1
    } else {
        ((len + 1023) / 1024) as nat
    }
}

/// The bytes of chunk `i` of `data`.
pub open spec fn chunk_bytes(data: Seq<u8>, i: int) -> Seq<u8> {
    let end = if 1024 * (i + 1) < data.len() {
        1024 * (i + 1)
    } else {
        data.len() as int
    };
    data.subrange(1024 * i, end)
}

/// The leaf nodes of `data`: chunk `i` holds bytes `1024 i` up to `1024 (i + 1)`.
pub open spec fn input_chunks(data: Seq<u8>, key: Seq<u32>, flags: u32) -> Seq<NodeState> {
    Seq::new(chunk_count(data.len()), |i: int| chunk_node(key, i as u64, flags, chunk_bytes(data, i)))
}

/// What Verus sees of a tree: its leaves and the parameters that every parent
/// node is built with.
pub struct TreeView {
    pub leaves: Seq<NodeState>,
    pub key: Seq<u32>,
    pub flags: u32,
}

/// The views of a sequence of nodes.
pub open spec fn views(s: Seq<Output>) -> Seq<NodeState> {
    Seq::new(s.len(), |i: int| s[i]@)
}

/// `o` with the `ROOT` flag added.
pub open spec fn with_root_flag(o: NodeState) -> NodeState {
    NodeState { flags: o.flags | ROOT, ..o }
}

/// A heap of nodes, 1-based: the root at slot 1, the children of slot `s` at
/// `2s` and `2s + 1`, and the leaves from slot `number_of_leaves` on; the
/// slots after the last real leaf are padding and never read.
#[derive(Debug, Clone)]
pub struct BinaryMerkleTree {
    tree: Vec<Output>,
    actual_leaves: usize,
    number_of_leaves: usize,
    leaf_start_index: usize,
    key_words: [u32; 8],
    flags: u32,
}

impl View for BinaryMerkleTree {
    type V = TreeView;

    closed spec fn view(&self) -> TreeView {
        TreeView {
            leaves: Seq::new(
                self.actual_leaves as nat,
                |j: int| self.tree@[self.leaf_start_index + j]@,
            ),
            key: self.key_words@,
            flags: self.flags,
        }
    }
}

/// Every real slot of levels `0 ..= upto` holds the node that `leaves` give it.
pub open spec fn levels_hold(
    tree: Seq<Output>,
    leaves: Seq<NodeState>,
    key: Seq<u32>,
    flags: u32,
    upto: nat,
) -> bool {
    forall|k: nat, j: int|
        k <= upto && 0 <= j < level_pop(leaves.len(), k) ==> tree[level_start(leaves.len(), k) + j]@
            == #[trigger] tree_node(leaves, key, flags, k, j)
}

/// Every real slot holds the node that `leaves` give it, but for the nodes
/// strictly above the node at offset `c` of level `k`.
pub open spec fn holds_except_above(
    tree: Seq<Output>,
    leaves: Seq<NodeState>,
    key: Seq<u32>,
    flags: u32,
    k: nat,
    c: int,
) -> bool {
    let n = leaves.len();
    forall|k2: nat, j2: int|
        k2 <= height(n) && 0 <= j2 < level_pop(n, k2) && !strictly_above(k, c, k2, j2)
            ==> tree[level_start(n, k2) + j2]@ == #[trigger] tree_node(leaves, key, flags, k2, j2)
}

/// The slots of two distinct real nodes differ.
pub proof fn lemma_slots_distinct(n: nat, k1: nat, j1: int, k2: nat, j2: int)
    requires
        n >= 1,
        k1 <= height(n),
        k2 <= height(n),
        0 <= j1 < level_pop(n, k1),
        0 <= j2 < level_pop(n, k2),
        k1 != k2 || j1 != j2,
    ensures
        level_start(n, k1) + j1 != level_start(n, k2) + j2,
        level_start(n, k1) + j1 < 2 * padded_leaves(n),
        1 <= level_start(n, k1) + j1,
{
    lemma_level_bounds(n, k1);
    if k1 < k2 {
        lemma_slots_disjoint(n, k1, j1, k2, j2);
    } else if k2 < k1 {
        lemma_slots_disjoint(n, k2, j2, k1, j1);
    }
}

/// `s ^ 1` is the sibling slot and `s >> 1` the parent slot.
pub proof fn lemma_slot_bits(s: usize)
    ensures
        s % 2 == 0 ==> s ^ 1 == s + 1,
        s % 2 == 1 ==> s ^ 1 == s - 1,
        s >> 1 == s / 2,
{
    assert(s % 2 == 0 ==> s ^ 1 == s + 1) by (bit_vector);
    assert(s % 2 == 1 ==> s ^ 1 == s - 1) by (bit_vector);
    assert(s >> 1 == s / 2) by (bit_vector);
}

/// The node that the slots of level `k` give the parent of offset `c`.
pub open spec fn parent_from_slots(
    tree: Seq<Output>,
    n: nat,
    key: Seq<u32>,
    flags: u32,
    k: nat,
    c: int,
) -> NodeState {
    let left = level_start(n, k) + 2 * (c / 2);
    if 2 * (c / 2) + 1 < level_pop(n, k) {
        parent_node(cv_of(tree[left]@), cv_of(tree[left + 1]@), key, flags)
    } else {
        tree[left]@
    }
}

/// Recomputing the parent of `(k, c)` from its pair moves the one node that
/// may be stale one level up.
pub proof fn lemma_step_holds(
    t1: Seq<Output>,
    t2: Seq<Output>,
    leaves: Seq<NodeState>,
    key: Seq<u32>,
    flags: u32,
    k: nat,
    c: int,
)
    requires
        leaves.len() >= 1,
        k < height(leaves.len()),
        0 <= c < level_pop(leaves.len(), k),
        t1.len() == 2 * padded_leaves(leaves.len()),
        holds_except_above(t1, leaves, key, flags, k, c),
        t2 == t1.update(
            level_start(leaves.len(), k + 1) + c / 2,
            t2[level_start(leaves.len(), k + 1) + c / 2],
        ),
        t2[level_start(leaves.len(), k + 1) + c / 2]@ == parent_from_slots(
            t1,
            leaves.len(),
            key,
            flags,
            k,
            c,
        ),
    ensures
        holds_except_above(t2, leaves, key, flags, k + 1, c / 2),
{
    let n = leaves.len();
    let h = height(n);
    let p = c / 2;
    lemma_level_bounds(n, k);
    lemma_level_bounds(n, k + 1);
    lemma_padded_bounds(n);
    assert forall|k2: nat, j2: int|
        k2 <= h && 0 <= j2 < level_pop(n, k2) && !strictly_above(
            k + 1,
            p,
            k2,
            j2,
        ) implies t2[level_start(n, k2) + j2]@ == #[trigger] tree_node(leaves, key, flags, k2, j2) by {
        lemma_level_bounds(n, k2);
        if k2 == k + 1 && j2 == p {
            let l = 2 * p;
            assert(!strictly_above(k, c, k, l));
            assert(t1[level_start(n, k) + l]@ == tree_node(leaves, key, flags, k, l));
            if l + 1 < level_pop(n, k) {
                assert(!strictly_above(k, c, k, l + 1));
                assert(t1[level_start(n, k) + l + 1]@ == tree_node(leaves, key, flags, k, l + 1));
            }
        } else {
            lemma_slots_distinct(n, k2, j2, k + 1, p);
            if strictly_above(k, c, k2, j2) {
                if k2 > k + 1 {
                    lemma_ancestor_step(c, (k2 - k - 1) as nat);
                    assert(strictly_above(k + 1, p, k2, j2));
                } else {
                    assert(ancestor_offset(c, 1) == ancestor_offset(c, 0) / 2);
                }
            }
            assert(t1[level_start(n, k2) + j2]@ == tree_node(leaves, key, flags, k2, j2));
        }
    }
}

/// Each index is below the next.
pub open spec fn strictly_ascending(s: Seq<usize>) -> bool {
    forall|a: int, b: int| 0 <= a < b < s.len() ==> s[a] < s[b]
}

/// `leaves` after leaf `idx[t]` is set to `outs[t]`, for `t` in order.
pub open spec fn updated_leaves(
    leaves: Seq<NodeState>,
    idx: Seq<usize>,
    outs: Seq<NodeState>,
) -> Seq<NodeState>
    decreases idx.len(),
{
    if idx.len() == 0 {
        leaves
    } else {
        updated_leaves(leaves, idx.drop_last(), outs).update(
            idx.last() as int,
            outs[idx.len() - 1],
        )
    }
}

pub proof fn lemma_updated_untouched(
    leaves: Seq<NodeState>,
    idx: Seq<usize>,
    outs: Seq<NodeState>,
    i: int,
)
    requires
        forall|t: int| 0 <= t < idx.len() ==> idx[t] != i && idx[t] < leaves.len(),
    ensures
        updated_leaves(leaves, idx, outs).len() == leaves.len(),
        0 <= i < leaves.len() ==> updated_leaves(leaves, idx, outs)[i] == leaves[i],
    decreases idx.len(),
{
    if idx.len() > 0 {
        let d = idx.drop_last();
        assert forall|t: int| 0 <= t < d.len() implies d[t] != i && d[t] < leaves.len() by {
            assert(d[t] == idx[t]);
        }
        lemma_updated_untouched(leaves, d, outs, i);
        assert(idx.last() == idx[idx.len() - 1]);
    }
}

/// Some queued node lies strictly below the node at `(k2, j2)`.
pub open spec fn pending_above(queue: Seq<(nat, int)>, k2: nat, j2: int) -> bool {
    exists|t: int| 0 <= t < queue.len() && strictly_above(queue[t].0, queue[t].1, k2, j2)
}

/// Every real slot holds its node, but for those strictly above a queued node.
pub open spec fn holds_except_above_queue(
    tree: Seq<Output>,
    leaves: Seq<NodeState>,
    key: Seq<u32>,
    flags: u32,
    queue: Seq<(nat, int)>,
) -> bool {
    let n = leaves.len();
    forall|k2: nat, j2: int|
        k2 <= height(n) && 0 <= j2 < level_pop(n, k2) && !pending_above(queue, k2, j2)
            ==> tree[level_start(n, k2) + j2]@ == #[trigger] tree_node(leaves, key, flags, k2, j2)
}

/// The queue holds real nodes, level by level upward, over at most two levels.
pub open spec fn queue_ordered(queue: Seq<(nat, int)>, n: nat) -> bool {
    &&& forall|t: int|
        0 <= t < queue.len() ==> #[trigger] queue[t].0 <= height(n) && 0 <= queue[t].1 < level_pop(
            n,
            queue[t].0,
        )
    &&& forall|a: int, b: int| 0 <= a < b < queue.len() ==> queue[a].0 <= queue[b].0
    &&& forall|t: int| 0 <= t < queue.len() ==> #[trigger] queue[t].0 <= queue[0].0 + 1
}

/// The work left in the queue: each node counts the levels left above it, plus one.
pub open spec fn queue_weight(queue: Seq<(nat, int)>, h: nat) -> nat
    decreases queue.len(),
{
    if queue.len() == 0 {
        0
    } else {
        (h + 1 - queue[0].0) as nat + queue_weight(queue.skip(1), h)
    }
}

pub proof fn lemma_queue_weight_push(queue: Seq<(nat, int)>, h: nat, x: (nat, int))
    requires
        x.0 <= h,
        forall|t: int| 0 <= t < queue.len() ==> #[trigger] queue[t].0 <= h,
    ensures
        queue_weight(queue.push(x), h) == queue_weight(queue, h) + (h + 1 - x.0),
    decreases queue.len(),
{
    let pushed = queue.push(x);
    if queue.len() > 0 {
        assert(pushed.skip(1) =~= queue.skip(1).push(x));
        assert(pushed[0] == queue[0]);
        assert forall|t: int| 0 <= t < queue.skip(1).len() implies #[trigger] queue.skip(1)[t].0
            <= h by {
            assert(queue.skip(1)[t] == queue[t + 1]);
        }
        lemma_queue_weight_push(queue.skip(1), h, x);
    } else {
        assert(pushed.skip(1) =~= Seq::<(nat, int)>::empty());
        assert(pushed[0] == x);
        assert(queue_weight(pushed.skip(1), h) == 0);
    }
}

/// Recomputing the parent of the front node, and dropping the front `dropped`
/// nodes, which share that parent, keeps the tree right but above the queue.
pub proof fn lemma_queue_step(
    t1: Seq<Output>,
    t2: Seq<Output>,
    leaves: Seq<NodeState>,
    key: Seq<u32>,
    flags: u32,
    q1: Seq<(nat, int)>,
    dropped: int,
)
    requires
        leaves.len() >= 1,
        1 <= dropped <= 2,
        dropped <= q1.len(),
        queue_ordered(q1, leaves.len()),
        q1[0].0 < height(leaves.len()),
        forall|t: int| 0 <= t < dropped ==> #[trigger] q1[t].0 == q1[0].0 && q1[t].1 / 2 == q1[0].1 / 2,
        t1.len() == 2 * padded_leaves(leaves.len()),
        holds_except_above_queue(t1, leaves, key, flags, q1),
        t2 == t1.update(
            level_start(leaves.len(), q1[0].0 + 1) + q1[0].1 / 2,
            t2[level_start(leaves.len(), q1[0].0 + 1) + q1[0].1 / 2],
        ),
        t2[level_start(leaves.len(), q1[0].0 + 1) + q1[0].1 / 2]@ == parent_from_slots(
            t1,
            leaves.len(),
            key,
            flags,
            q1[0].0,
            q1[0].1,
        ),
    ensures
        holds_except_above_queue(
            t2,
            leaves,
            key,
            flags,
            q1.skip(dropped).push((q1[0].0 + 1, q1[0].1 / 2)),
        ),
        queue_ordered(q1.skip(dropped).push((q1[0].0 + 1, q1[0].1 / 2)), leaves.len()),
        queue_weight(q1.skip(dropped).push((q1[0].0 + 1, q1[0].1 / 2)), height(leaves.len()))
            < queue_weight(q1, height(leaves.len())),
{
    let n = leaves.len();
    let h = height(n);
    let k = q1[0].0;
    let c = q1[0].1;
    let p = c / 2;
    let q2 = q1.skip(dropped).push((k + 1, p));
    lemma_level_bounds(n, k);
    lemma_level_bounds(n, k + 1);
    lemma_padded_bounds(n);
    assert forall|k2: nat, j2: int|
        k2 <= h && 0 <= j2 < level_pop(n, k2) && !pending_above(
            q2,
            k2,
            j2,
        ) implies t2[level_start(n, k2) + j2]@ == #[trigger] tree_node(leaves, key, flags, k2, j2) by {
        lemma_level_bounds(n, k2);
        if k2 == k + 1 && j2 == p {
            let l = 2 * p;
            assert(!pending_above(q1, k, l));
            assert(t1[level_start(n, k) + l]@ == tree_node(leaves, key, flags, k, l));
            if l + 1 < level_pop(n, k) {
                assert(!pending_above(q1, k, l + 1));
                assert(t1[level_start(n, k) + l + 1]@ == tree_node(leaves, key, flags, k, l + 1));
            }
        } else {
            lemma_slots_distinct(n, k2, j2, k + 1, p);
            if pending_above(q1, k2, j2) {
                let t = choose|t: int|
                    0 <= t < q1.len() && strictly_above(q1[t].0, q1[t].1, k2, j2);
                if t < dropped {
                    let ct = q1[t].1;
                    if k2 > k + 1 {
                        lemma_ancestor_step(ct, (k2 - k - 1) as nat);
                        assert(strictly_above(k + 1, p, k2, j2));
                    } else {
                        assert(ancestor_offset(ct, 1) == ancestor_offset(ct, 0) / 2);
                    }
                    assert(q2[q2.len() - 1] == (k + 1, p));
                    assert(pending_above(q2, k2, j2));
                } else {
                    assert(q2[t - dropped] == q1[t]);
                    assert(pending_above(q2, k2, j2));
                }
            }
            assert(t1[level_start(n, k2) + j2]@ == tree_node(leaves, key, flags, k2, j2));
        }
    }
    lemma_ancestor_real(n, k, c, 1);
    assert(ancestor_offset(c, 1) == ancestor_offset(c, 0) / 2);
    assert(queue_ordered(q2, n)) by {
        assert forall|a: int, b: int| 0 <= a < b < q2.len() implies q2[a].0 <= q2[b].0 by {
            if b < q2.len() - 1 {
                assert(q2[a] == q1[a + dropped]);
                assert(q2[b] == q1[b + dropped]);
            } else if a < q2.len() - 1 {
                assert(q2[a] == q1[a + dropped]);
            }
        }
        assert forall|t: int| 0 <= t < q2.len() implies #[trigger] q2[t].0 <= q2[0].0 + 1 by {
            if t < q2.len() - 1 {
                assert(q2[t] == q1[t + dropped]);
            }
            if q2.len() > 1 {
                assert(q2[0] == q1[dropped]);
            }
        }
        assert forall|t: int| 0 <= t < q2.len() implies #[trigger] q2[t].0 <= height(n) && 0
            <= q2[t].1 < level_pop(n, q2[t].0) by {
            if t < q2.len() - 1 {
                assert(q2[t] == q1[t + dropped]);
            }
        }
    }
    let s1 = q1.skip(1);
    assert(queue_weight(q1, h) == (h + 1 - k) as nat + queue_weight(s1, h));
    if dropped == 2 {
        assert(q1.skip(2) =~= s1.skip(1));
        assert(s1[0] == q1[1]);
        assert(queue_weight(s1, h) == (h + 1 - q1[1].0) as nat + queue_weight(q1.skip(2), h));
    } else {
        assert(q1.skip(1) == s1);
    }
    assert forall|t: int| 0 <= t < q1.skip(dropped).len() implies #[trigger] q1.skip(dropped)[t].0
        <= h by {
        assert(q1.skip(dropped)[t] == q1[t + dropped]);
    }
    lemma_queue_weight_push(q1.skip(dropped), h, (k + 1, p));
}

/// After new leaves are written, the tree is right but above the written leaves.
pub proof fn lemma_bulk_start(
    t0: Seq<Output>,
    t2: Seq<Output>,
    l1: Seq<NodeState>,
    key: Seq<u32>,
    flags: u32,
    idx: Seq<usize>,
    outs: Seq<NodeState>,
)
    requires
        l1.len() >= 1,
        t0.len() == 2 * padded_leaves(l1.len()),
        t2.len() == t0.len(),
        forall|t: int| 0 <= t < idx.len() ==> idx[t] < l1.len(),
        levels_hold(t0, l1, key, flags, height(l1.len())),
        forall|s: int| 0 <= s < padded_leaves(l1.len()) ==> t2[s] == t0[s],
        forall|j: int|
            0 <= j < l1.len() ==> t2[padded_leaves(l1.len()) + j]@ == #[trigger] updated_leaves(
                l1,
                idx,
                outs,
            )[j],
    ensures
        holds_except_above_queue(
            t2,
            updated_leaves(l1, idx, outs),
            key,
            flags,
            Seq::new(idx.len(), |u: int| (0nat, idx[u] as int)),
        ),
{
    let n = l1.len();
    let l2 = updated_leaves(l1, idx, outs);
    let q = Seq::new(idx.len(), |u: int| (0nat, idx[u] as int));
    lemma_padded_bounds(n);
    lemma_updated_untouched(l1, idx, outs, -1);
    assert forall|k2: nat, j2: int|
        k2 <= height(n) && 0 <= j2 < level_pop(n, k2) && !pending_above(
            q,
            k2,
            j2,
        ) implies t2[level_start(n, k2) + j2]@ == #[trigger] tree_node(l2, key, flags, k2, j2) by {
        if k2 > 0 {
            lemma_slots_disjoint(n, 0, 0, k2, j2);
            assert(t0[level_start(n, k2) + j2]@ == tree_node(l1, key, flags, k2, j2));
            assert forall|i: int|
                0 <= i < l1.len() && #[trigger] ancestor_offset(i, k2) == j2 implies l1[i]
                == l2[i] by {
                assert forall|t: int| 0 <= t < idx.len() implies idx[t] != i && idx[t] < l1.len() by {
                    if idx[t] == i {
                        assert(q[t] == (0nat, i));
                        assert(strictly_above(0, i, k2, j2));
                        assert(pending_above(q, k2, j2));
                    }
                }
                lemma_updated_untouched(l1, idx, outs, i);
            }
            lemma_node_frame(l1, l2, key, flags, k2, j2);
        }
    }
}

/// A slot in the range of level `k` that holds a real node of level `k2` is
/// the slot `s` of a node of level `k`; its offset shares the parent when
/// `s` is the sibling of the node at offset `c`.
pub proof fn lemma_same_level(n: nat, k: nat, k2: nat, j2: int, s: int)
    requires
        n >= 1,
        k < height(n),
        k2 <= height(n),
        0 <= j2 < level_pop(n, k2),
        level_start(n, k) <= s < 2 * level_start(n, k),
        s == level_start(n, k2) + j2,
    ensures
        k2 == k,
{
    lemma_level_bounds(n, k);
    lemma_level_bounds(n, k2);
    if k2 < k {
        lemma_two_pow_monotone((height(n) - k) as nat, (height(n) - k2) as nat);
    } else if k2 > k {
        lemma_two_pow_monotone((height(n) - k2) as nat, (height(n) - k) as nat);
    }
}

/// Whether each index is below the next.
fn is_sorted(leaf_indices: &Vec<usize>) -> (r: bool)
    ensures
        r == strictly_ascending(leaf_indices@),
{
    let len = leaf_indices.len();
    let mut t: usize = 1;
    while t < len
        invariant
            1 <= t,
            len == leaf_indices@.len(),
            forall|a: int, b: int| 0 <= a < b < t && b < len ==> leaf_indices@[a] < leaf_indices@[b],
        decreases len - t,
    {
        if leaf_indices[t - 1] >= leaf_indices[t] {
            return false;
        }
        t = t + 1;
    }
    true
}

/// Whether every index is below `bound`.
fn all_below(leaf_indices: &Vec<usize>, bound: usize) -> (r: bool)
    ensures
        r == (forall|t: int| 0 <= t < leaf_indices@.len() ==> leaf_indices@[t] < bound),
{
    let mut t: usize = 0;
    while t < leaf_indices.len()
        invariant
            t <= leaf_indices@.len(),
            forall|u: int| 0 <= u < t ==> leaf_indices@[u] < bound,
        decreases leaf_indices@.len() - t,
    {
        if leaf_indices[t] >= bound {
            return false;
        }
        t = t + 1;
    }
    true
}

impl BinaryMerkleTree {

    /// The sizes agree with the number of leaves.
    pub closed spec fn shape_ok(&self) -> bool {
        let n = self.actual_leaves as nat;
        &&& 1 <= n <= usize::MAX / 4
        &&& self.number_of_leaves == padded_leaves(n)
        &&& self.leaf_start_index == self.number_of_leaves
        &&& self.tree@.len() == 2 * self.number_of_leaves
        &&& self.key_words@.len() == 8
    }

    /// The sizes agree and every real slot holds its node.
    pub closed spec fn wf(&self) -> bool {
        let n = self.actual_leaves as nat;
        &&& self.shape_ok()
        &&& levels_hold(self.tree@, self@.leaves, self.key_words@, self.flags, height(n))
    }

    /// The tree over `leaves`, each parent built with `key_words` and `flags`.
    pub fn new_from_leaves(leaves: Vec<Output>, key_words: [u32; 8], flags: u32) -> (r: Self)
        requires
            1 <= leaves@.len() <= usize::MAX / 4,
        ensures
            r.wf(),
            r@.leaves == views(leaves@),
            r@.key == key_words@,
            r@.flags == flags,
    {
        let actual_leaves = leaves.len();
        let number_of_leaves = next_power_of_two(actual_leaves);
        let placeholder = Output {
            input_chaining_value: key_words,
            block_words: [0; 16],
            counter: 0,
            block_len: 64,
            flags,
        };
        let nodes = vec![placeholder; 2 * number_of_leaves];
        let mut binary_tree = BinaryMerkleTree {
            tree: nodes,
            actual_leaves,
            number_of_leaves,
            leaf_start_index: number_of_leaves,
            key_words,
            flags,
        };
        binary_tree.create_tree_from_leaves(leaves);
        binary_tree
    }

    /// Writes the leaves into their slots and fills every level above them.
    fn create_tree_from_leaves(&mut self, leaves: Vec<Output>)
        requires
            leaves@.len() == old(self).actual_leaves,
            1 <= old(self).actual_leaves <= usize::MAX / 4,
            old(self).number_of_leaves == padded_leaves(old(self).actual_leaves as nat),
            old(self).leaf_start_index == old(self).number_of_leaves,
            old(self).tree@.len() == 2 * old(self).number_of_leaves,
        ensures
            final(self).wf(),
            final(self)@.leaves == views(leaves@),
            final(self)@.key == old(self)@.key,
            final(self)@.flags == old(self)@.flags,
    {
        let n = self.actual_leaves;
        let ghost lv = views(leaves@);
        let ghost h = height(n as nat);
        let ghost key = self.key_words@;
        let ghost fl = self.flags;
        proof {
            lemma_level_bounds(n as nat, 0);
            lemma_padded_bounds(n as nat);
        }
        let mut i: usize = 0;
        while i < n
            invariant
                i <= n,
                n == leaves@.len(),
                n == self.actual_leaves,
                lv == views(leaves@),
                self.leaf_start_index == padded_leaves(n as nat),
                n <= self.leaf_start_index < 2 * n,
                n <= usize::MAX / 4,
                self.tree@.len() == 2 * self.leaf_start_index,
                forall|j: int| 0 <= j < i ==> #[trigger] self.tree@[self.leaf_start_index + j]@ == lv[j],
                self.key_words@ == key,
                self.flags == fl,
                self.number_of_leaves == old(self).number_of_leaves,
                self.leaf_start_index == old(self).leaf_start_index,
            decreases n - i,
        {
            self.tree[self.leaf_start_index + i] = leaves[i];
            i = i + 1;
        }
        assert(self@.leaves =~= lv);
        if self.actual_leaves == 1 {
            self.tree[1] = self.tree[self.leaf_start_index];
            assert(self@.leaves =~= lv);
            return;
        }
        let mut current_level_start = self.leaf_start_index;
        let mut nodes_at_current_level = self.actual_leaves;
        let ghost mut k: nat = 0;
        while current_level_start > 1
            invariant
                k <= h,
                h == height(n as nat),
                n == self.actual_leaves,
                1 <= n <= usize::MAX / 4,
                current_level_start == level_start(n as nat, k),
                nodes_at_current_level == level_pop(n as nat, k),
                self.leaf_start_index == padded_leaves(n as nat),
                self.leaf_start_index < 2 * n,
                self.number_of_leaves == old(self).number_of_leaves,
                self.leaf_start_index == old(self).leaf_start_index,
                self.tree@.len() == 2 * self.leaf_start_index,
                self.key_words@ == key,
                self.flags == fl,
                self@.leaves == lv,
                levels_hold(self.tree@, lv, key, fl, k),
            decreases current_level_start,
        {
            proof {
                lemma_level_bounds(n as nat, k);
                if k == h {
                    assert(false);
                }
                lemma_level_bounds(n as nat, k + 1);
                lemma_two_pow_positive((h - k - 1) as nat);
                assert(level_start(n as nat, k) == 2 * level_start(n as nat, k + 1));
                lemma_slots_disjoint(n as nat, 0, 0, k + 1, 0);
            }
            let parent_level_start = current_level_start / 2;
            let nodes_in_parent_level = (nodes_at_current_level + 1) / 2;
            let mut i: usize = 0;
            while i < nodes_in_parent_level
                invariant
                    k < h,
                    h == height(n as nat),
                    n == self.actual_leaves,
                    1 <= n <= usize::MAX / 4,
                    i <= nodes_in_parent_level,
                    current_level_start == level_start(n as nat, k),
                    parent_level_start == level_start(n as nat, k + 1),
                    current_level_start == 2 * parent_level_start,
                    nodes_at_current_level == level_pop(n as nat, k),
                    nodes_in_parent_level == level_pop(n as nat, k + 1),
                    nodes_at_current_level <= current_level_start,
                    current_level_start <= self.leaf_start_index,
                    self.leaf_start_index == padded_leaves(n as nat),
                    self.leaf_start_index < 2 * n,
                    self.number_of_leaves == old(self).number_of_leaves,
                    self.leaf_start_index == old(self).leaf_start_index,
                    self.tree@.len() == 2 * self.leaf_start_index,
                    self.key_words@ == key,
                    self.flags == fl,
                    self@.leaves == lv,
                    levels_hold(self.tree@, lv, key, fl, k),
                    forall|i2: int|
                        0 <= i2 < i ==> self.tree@[parent_level_start + i2]@ == #[trigger] tree_node(
                            lv,
                            key,
                            fl,
                            k + 1,
                            i2,
                        ),
                decreases nodes_in_parent_level - i,
            {
                let left_index = current_level_start + 2 * i;
                let right_index = left_index + 1;
                let parent_index = parent_level_start + i;
                assert(self.tree@[left_index as int]@ == tree_node(lv, key, fl, k, 2 * i));
                let ghost before = self.tree@;
                if 2 * i + 1 >= nodes_at_current_level {
                    self.tree[parent_index] = self.tree[left_index];
                } else {
                    assert(self.tree@[right_index as int]@ == tree_node(lv, key, fl, k, 2 * i + 1));
                    self.tree[parent_index] =
                    parent_output(
                        self.tree[left_index].chaining_value(),
                        self.tree[right_index].chaining_value(),
                        self.key_words,
                        self.flags,
                    );
                }
                assert(self.tree@[parent_index as int]@ == tree_node(lv, key, fl, k + 1, i as int));
                proof {
                    assert forall|k2: nat, j: int|
                        k2 <= k && 0 <= j < level_pop(n as nat, k2) implies self.tree@[level_start(
                            n as nat,
                            k2,
                        ) + j]@ == #[trigger] tree_node(lv, key, fl, k2, j) by {
                        lemma_slots_disjoint(n as nat, k2, j, k + 1, i as int);
                        lemma_level_bounds(n as nat, k2);
                        assert(lv.len() == n);
                        assert(before[level_start(n as nat, k2) + j]@ == tree_node(lv, key, fl, k2, j));
                        assert(self.tree@[level_start(n as nat, k2) + j] == before[level_start(
                            n as nat,
                            k2,
                        ) + j]);
                    }
                    assert(self@.leaves =~= lv) by {
                        assert forall|j: int| 0 <= j < n implies #[trigger] self@.leaves[j] == lv[j] by {
                            lemma_slots_disjoint(n as nat, 0, j, k + 1, i as int);
                            assert(before[self.leaf_start_index + j]@ == tree_node(lv, key, fl, 0, j));
                        }
                    }
                }
                i = i + 1;
            }
            current_level_start = parent_level_start;
            nodes_at_current_level = nodes_in_parent_level;
            proof {
                k = k + 1;
            }
        }
        proof {
            lemma_level_bounds(n as nat, k);
            if k < h {
                lemma_two_pow_positive((h - k - 1) as nat);
            }
        }
    }

    /// The sibling slot: the slot that shares the parent of `index`.
    fn get_sibling_index(index: usize) -> (r: usize)
        ensures
            index % 2 == 0 ==> r == index + 1,
            index % 2 == 1 ==> r == index - 1,
    {
        proof {
            lemma_slot_bits(index);
        }
        index ^ 1
    }

    /// Left children sit at even slots.
    fn is_left(index: usize) -> (r: bool)
        ensures
            r == (index % 2 == 0),
    {
        index % 2 == 0
    }

    fn get_parent_index(index: usize) -> (r: usize)
        ensures
            r == index / 2,
    {
        proof {
            lemma_slot_bits(index);
        }
        index >> 1
    }

    /// The left and the right slot of the pair that `current_index` belongs to.
    fn get_left_and_right_node_indices_from_index(current_index: usize) -> (r: (usize, usize))
        requires
            current_index >= 1,
        ensures
            r.0 == current_index - current_index % 2,
            r.1 == r.0 + 1,
    {
        let sibling_index = BinaryMerkleTree::get_sibling_index(current_index);
        if BinaryMerkleTree::is_left(sibling_index) {
            (sibling_index, current_index)
        } else {
            (current_index, sibling_index)
        }
    }

    /// For the real node at offset `j` of level `k`, below the root: the slots of
    /// its pair, the slot of its parent, and whether the right one of the pair is real.
    fn get_tree_indices(&self, current_index: usize, Ghost(k): Ghost<nat>, Ghost(j): Ghost<int>) -> (r: (
        usize,
        usize,
        usize,
        bool,
    ))
        requires
            self.shape_ok(),
            k < height(self.actual_leaves as nat),
            0 <= j < level_pop(self.actual_leaves as nat, k),
            current_index == level_start(self.actual_leaves as nat, k) + j,
        ensures
            r.0 == level_start(self.actual_leaves as nat, k) + 2 * (j / 2),
            r.1 == r.0 + 1,
            r.2 == level_start(self.actual_leaves as nat, k + 1) + j / 2,
            r.3 == (2 * (j / 2) + 1 < level_pop(self.actual_leaves as nat, k)),
            r.1 < self.tree@.len(),
    {
        let ghost n = self.actual_leaves as nat;
        let ghost h = height(n);
        proof {
            lemma_level_bounds(n, k);
            lemma_level_bounds(n, k + 1);
            lemma_two_pow_positive((h - k - 1) as nat);
            assert(level_start(n, k) == 2 * level_start(n, k + 1));
        }
        let mut level_start_index = self.leaf_start_index;
        let mut nodes_in_level = self.actual_leaves;
        let ghost mut level: nat = 0;
        while current_index < level_start_index
            invariant
                self.shape_ok(),
                n == self.actual_leaves,
                h == height(n),
                level <= k < h,
                level_start_index == level_start(n, level),
                nodes_in_level == level_pop(n, level),
                current_index == level_start(n, k) + j,
                level_start(n, k) <= current_index < 2 * level_start(n, k),
            decreases level_start_index,
        {
            proof {
                if level == k {
                    assert(false);
                }
                lemma_level_bounds(n, level);
                lemma_level_bounds(n, level + 1);
                lemma_two_pow_positive((h - level - 1) as nat);
                assert(level_start(n, level) == 2 * level_start(n, level + 1));
            }
            level_start_index = level_start_index / 2;
            nodes_in_level = (nodes_in_level + 1) / 2;
            proof {
                level = level + 1;
            }
        }
        proof {
            if level < k {
                lemma_two_pow_monotone((h - k) as nat, (h - level) as nat);
                assert(false);
            }
            lemma_padded_bounds(n);
        }
        let (left_index, right_index) =
            BinaryMerkleTree::get_left_and_right_node_indices_from_index(current_index);
        let parent_index = BinaryMerkleTree::get_parent_index(current_index);
        let has_right_sibling = right_index < level_start_index + nodes_in_level;
        (left_index, right_index, parent_index, has_right_sibling)
    }

    /// Sets leaf `leaf_index` to `leaf_output` and recomputes its ancestors.
    pub fn insert_leaf(&mut self, leaf_index: usize, leaf_output: Output)
        requires
            old(self).wf(),
            leaf_index < old(self)@.leaves.len(),
        ensures
            final(self).wf(),
            final(self)@ == (TreeView {
                leaves: old(self)@.leaves.update(leaf_index as int, leaf_output@),
                ..old(self)@
            }),
    {
        let ghost n = self.actual_leaves as nat;
        let ghost h = height(n);
        let ghost l1 = self@.leaves;
        let ghost key = self.key_words@;
        let ghost fl = self.flags;
        proof {
            lemma_padded_bounds(n);
        }
        let real_leaf_index = leaf_index + self.leaf_start_index;
        let ghost t1 = self.tree@;
        self.tree[real_leaf_index] = leaf_output;
        let ghost l2 = self@.leaves;
        assert(l2 =~= l1.update(leaf_index as int, leaf_output@));
        proof {
            assert forall|k2: nat, j2: int|
                k2 <= h && 0 <= j2 < level_pop(n, k2) && !strictly_above(
                    0,
                    leaf_index as int,
                    k2,
                    j2,
                ) implies self.tree@[level_start(n, k2) + j2]@ == #[trigger] tree_node(
                l2,
                key,
                fl,
                k2,
                j2,
            ) by {
                if k2 == 0 {
                    lemma_level_bounds(n, 0);
                } else {
                    lemma_slots_distinct(n, k2, j2, 0, leaf_index as int);
                    assert(t1[level_start(n, k2) + j2]@ == tree_node(l1, key, fl, k2, j2));
                    assert forall|i: int|
                        0 <= i < l1.len() && #[trigger] ancestor_offset(i, k2) == j2 implies l1[i]
                        == l2[i] by {
                        if i == leaf_index {
                            assert(strictly_above(0, leaf_index as int, k2, j2));
                        }
                    }
                    lemma_node_frame(l1, l2, key, fl, k2, j2);
                }
            }
            assert(ancestor_offset(leaf_index as int, 0) == leaf_index);
        }
        let mut nodes_in_this_level = self.actual_leaves;
        let mut current_index = real_leaf_index;
        let ghost mut k: nat = 0;
        let ghost mut c: int = leaf_index as int;
        while nodes_in_this_level > 1
            invariant
                self.shape_ok(),
                n == self.actual_leaves,
                1 <= n <= usize::MAX / 4,
                h == height(n),
                k <= h,
                0 <= c < level_pop(n, k),
                c == ancestor_offset(leaf_index as int, k),
                nodes_in_this_level == level_pop(n, k),
                current_index == level_start(n, k) + c,
                self.number_of_leaves == padded_leaves(n),
                self.leaf_start_index == self.number_of_leaves,
                self.tree@.len() == 2 * self.number_of_leaves,
                self.key_words@ == key,
                self.flags == fl,
                self@.leaves == l2,
                key.len() == 8,
                holds_except_above(self.tree@, l2, key, fl, k, c),
            decreases h - k,
        {
            proof {
                lemma_level_bounds(n, k);
                if k == h {
                    assert(false);
                }
            }
            let nodes_parent_level = (nodes_in_this_level + 1) / 2;
            let (left_node_index, right_node_index, parent_index, has_right_sibling) =
                self.get_tree_indices(current_index, Ghost(k), Ghost(c));
            let ghost t = self.tree@;
            if has_right_sibling {
                let parent_output = parent_output(
                    self.tree[left_node_index].chaining_value(),
                    self.tree[right_node_index].chaining_value(),
                    self.key_words,
                    self.flags,
                );
                self.tree[parent_index] = parent_output;
            } else {
                self.tree[parent_index] = self.tree[left_node_index];
            }
            proof {
                lemma_step_holds(t, self.tree@, l2, key, fl, k, c);
                assert forall|j: int| 0 <= j < n implies #[trigger] self@.leaves[j] == l2[j] by {
                    lemma_slots_disjoint(n, 0, j, k + 1, c / 2);
                    lemma_level_bounds(n, 0);
                }
                assert(self@.leaves =~= l2);
            }
            current_index = parent_index;
            nodes_in_this_level = nodes_parent_level;
            proof {
                lemma_ancestor_step(leaf_index as int, k);
                assert(ancestor_offset(leaf_index as int, k + 1) == c / 2);
                k = k + 1;
                c = c / 2;
            }
        }
        proof {
            lemma_level_bounds(n, k);
            if k < h {
                assert(false);
            }
        }
    }

    /// Sets leaf `leaf_indices[t]` to `leaf_outputs[t]` for every `t` and
    /// recomputes each affected parent once. Fails, and changes nothing, unless
    /// the two vectors have one length, the indices strictly ascend, and each
    /// names a leaf of the tree.
    pub fn bulk_insert_leaves(&mut self, leaf_indices: Vec<usize>, leaf_outputs: Vec<Output>) -> (r:
        Option<()>)
        requires
            old(self).wf(),
        ensures
            final(self).wf(),
            r is Some <==> (leaf_indices@.len() == leaf_outputs@.len() && strictly_ascending(
                leaf_indices@,
            ) && forall|t: int|
                0 <= t < leaf_indices@.len() ==> leaf_indices@[t] < old(self)@.leaves.len()),
            r is None ==> *final(self) == *old(self),
            r is Some ==> final(self)@ == (TreeView {
                leaves: updated_leaves(old(self)@.leaves, leaf_indices@, views(leaf_outputs@)),
                ..old(self)@
            }),
    {
        let m = leaf_indices.len();
        if m != leaf_outputs.len() {
            return None;
        }
        if !is_sorted(&leaf_indices) {
            return None;
        }
        if !all_below(&leaf_indices, self.actual_leaves) {
            return None;
        }
        let ghost n = self.actual_leaves as nat;
        let ghost h = height(n);
        let ghost l1 = self@.leaves;
        let ghost key = self.key_words@;
        let ghost fl = self.flags;
        let ghost t0 = self.tree@;
        let ghost outs = views(leaf_outputs@);
        let ghost idx = leaf_indices@;
        proof {
            lemma_padded_bounds(n);
            assert(idx.take(0) =~= Seq::<usize>::empty());
        }
        let leaf_offset = self.num_leaves();
        let mut t: usize = 0;
        while t < m
            invariant
                t <= m,
                m == idx.len(),
                m == leaf_outputs@.len(),
                idx == leaf_indices@,
                outs == views(leaf_outputs@),
                forall|u: int| 0 <= u < m ==> idx[u] < n,
                self.shape_ok(),
                n == self.actual_leaves,
                leaf_offset == self.leaf_start_index,
                n <= leaf_offset < 2 * n,
                self.tree@.len() == t0.len(),
                self.key_words@ == key,
                self.flags == fl,
                forall|s: int| 0 <= s < leaf_offset ==> self.tree@[s] == t0[s],
                self@.leaves == updated_leaves(l1, idx.take(t as int), outs),
                l1.len() == n,
            decreases m - t,
        {
            self.tree[leaf_indices[t] + leaf_offset] = leaf_outputs[t];
            proof {
                assert(idx.take(t + 1).drop_last() =~= idx.take(t as int));
                lemma_updated_untouched(l1, idx.take(t as int), outs, -1);
                assert(self@.leaves =~= updated_leaves(l1, idx.take(t + 1), outs));
            }
            t = t + 1;
        }
        assert(idx.take(m as int) =~= idx);
        let ghost l2 = self@.leaves;
        let mut update_queue: VecDeque<usize> = VecDeque::new();
        let ghost mut gq: Seq<(nat, int)> = Seq::empty();
        let mut t: usize = 0;
        while t < m
            invariant
                t <= m,
                m == idx.len(),
                idx == leaf_indices@,
                forall|u: int| 0 <= u < m ==> idx[u] < n,
                n <= leaf_offset < 2 * n,
                n <= usize::MAX / 4,
                leaf_offset == padded_leaves(n),
                update_queue@.len() == t,
                gq == Seq::new(t as nat, |u: int| (0nat, idx[u] as int)),
                forall|u: int| 0 <= u < t ==> update_queue@[u] == idx[u] + leaf_offset,
            decreases m - t,
        {
            update_queue.push_back(leaf_indices[t] + leaf_offset);
            proof {
                gq = gq.push((0nat, idx[t as int] as int));
                assert(gq =~= Seq::new((t + 1) as nat, |u: int| (0nat, idx[u] as int)));
            }
            t = t + 1;
        }
        proof {
            lemma_updated_untouched(l1, idx, outs, -1);
            lemma_bulk_start(t0, self.tree@, l1, key, fl, idx, outs);
            lemma_level_bounds(n, 0);
        }
        while update_queue.len() > 0 && update_queue[0] != 1
            invariant
                self.shape_ok(),
                n == self.actual_leaves,
                h == height(n),
                1 <= n <= usize::MAX / 4,
                self.key_words@ == key,
                self.flags == fl,
                key.len() == 8,
                self@.leaves == l2,
                l2.len() == n,
                update_queue@.len() == gq.len(),
                forall|u: int|
                    0 <= u < gq.len() ==> update_queue@[u] == level_start(n, gq[u].0) + gq[u].1,
                queue_ordered(gq, n),
                holds_except_above_queue(self.tree@, l2, key, fl, gq),
            decreases queue_weight(gq, h),
        {
            let ghost q1 = gq;
            let ghost k = gq[0].0;
            let ghost c = gq[0].1;
            let current_index = update_queue.pop_front().unwrap();
            proof {
                lemma_level_bounds(n, k);
                if k == h {
                    assert(false);
                }
                lemma_level_bounds(n, k + 1);
                lemma_two_pow_positive((h - k - 1) as nat);
                assert(level_start(n, k) == 2 * level_start(n, k + 1));
            }
            let ghost mut dropped: int = 1;
            let sibling_index = BinaryMerkleTree::get_sibling_index(current_index);
            if update_queue.len() > 0 && update_queue[0] == sibling_index {
                update_queue.pop_front();
                proof {
                    dropped = 2;
                    lemma_same_level(n, k, q1[1].0, q1[1].1, sibling_index as int);
                }
            }
            let (left_node_index, right_node_index, parent_index, has_right_sibling) =
                self.get_tree_indices(current_index, Ghost(k), Ghost(c));
            let ghost t = self.tree@;
            if has_right_sibling {
                let parent_output = parent_output(
                    self.tree[left_node_index].chaining_value(),
                    self.tree[right_node_index].chaining_value(),
                    self.key_words,
                    self.flags,
                );
                self.tree[parent_index] = parent_output;
            } else {
                self.tree[parent_index] = self.tree[left_node_index];
            }
            proof {
                lemma_queue_step(t, self.tree@, l2, key, fl, q1, dropped);
                assert forall|j: int| 0 <= j < n implies #[trigger] self@.leaves[j] == l2[j] by {
                    lemma_slots_disjoint(n, 0, j, k + 1, c / 2);
                    lemma_level_bounds(n, 0);
                }
                assert(self@.leaves =~= l2);
            }
            update_queue.push_back(parent_index);
            proof {
                gq = q1.skip(dropped).push((k + 1, c / 2));
                assert forall|u: int|
                    0 <= u < gq.len() implies update_queue@[u] == level_start(n, gq[u].0)
                    + gq[u].1 by {
                    if u < gq.len() - 1 {
                        assert(gq[u] == q1[u + dropped]);
                    }
                }
            }
        }
        proof {
            if gq.len() > 0 {
                lemma_level_bounds(n, gq[0].0);
                if gq[0].0 < h {
                    lemma_two_pow_positive((h - gq[0].0 - 1) as nat);
                    assert(level_start(n, gq[0].0) == 2 * level_start(n, (gq[0].0 + 1) as nat));
                }
            }
            assert forall|k2: nat, j2: int|
                k2 <= h && 0 <= j2 < level_pop(n, k2) implies self.tree@[level_start(n, k2) + j2]@
                == #[trigger] tree_node(l2, key, fl, k2, j2) by {
                if pending_above(gq, k2, j2) {
                    let u = choose|u: int|
                        0 <= u < gq.len() && strictly_above(gq[u].0, gq[u].1, k2, j2);
                    assert(gq[0].0 <= gq[u].0);
                }
            }
        }
        Some(())
    }

    /// Splits the input into chunks and reduces each to its node.
    fn process_input_to_chunks(input: &[u8], key_words: [u32; 8], flags: u32) -> (r: Vec<Output>)
        ensures
            views(r@) == input_chunks(input@, key_words@, flags),
            1 <= r@.len() <= usize::MAX / 4,
    {
        let mut outputs: Vec<Output> = Vec::new();
        let len = input.len();
        let mut start: usize = 0;
        let mut counter: u64 = 0;
        while start < len
            invariant
                len == input@.len(),
                start == if 1024 * counter <= len {
                    1024 * counter
                } else {
                    len as int
                },
                counter <= len / 1024 + 1,
                counter > 0 ==> 1024 * (counter - 1) < len,
                outputs@.len() == counter,
                forall|i: int|
                    0 <= i < counter ==> #[trigger] outputs@[i]@ == chunk_node(
                        key_words@,
                        i as u64,
                        flags,
                        chunk_bytes(input@, i),
                    ),
            decreases len - start,
        {
            let end = if len - start > CHUNK_LEN {
                start + CHUNK_LEN
            } else {
                len
            };
            let mut chunk_state = ChunkState::new(key_words, counter, flags);
            chunk_state.update(&input[start..end]);
            outputs.push(chunk_state.output());
            assert(chunk_bytes(input@, counter as int) == input@.subrange(start as int, end as int));
            start = end;
            counter = counter + 1;
        }
        if len > 0 {
            assert(counter == (len + 1023) / 1024) by (nonlinear_arith)
                requires
                    1024 * (counter - 1) < len <= 1024 * counter,
                    counter > 0,
            ;
        }
        if outputs.len() == 0 {
            let chunk_state = ChunkState::new(key_words, 0, flags);
            outputs.push(chunk_state.output());
            assert(chunk_bytes(input@, 0) =~= Seq::<u8>::empty());
        }
        assert(views(outputs@) =~= input_chunks(input@, key_words@, flags));
        outputs
    }

    /// The tree over the chunks of `input`.
    pub fn from_input(input: &[u8], key_words: [u32; 8], flags: u32) -> (r: Self)
        ensures
            r.wf(),
            r@.leaves == input_chunks(input@, key_words@, flags),
            r@.key == key_words@,
            r@.flags == flags,
    {
        let chunk_outputs = BinaryMerkleTree::process_input_to_chunks(input, key_words, flags);
        BinaryMerkleTree::new_from_leaves(chunk_outputs, key_words, flags)
    }

    /// The root node with the `ROOT` flag added, ready for its output bytes.
    pub fn root(&self) -> (r: Output)
        requires
            self.wf(),
        ensures
            r@ == with_root_flag(tree_root(self@.leaves, self@.key, self@.flags)),
    {
        proof {
            lemma_level_bounds(self.actual_leaves as nat, height(self.actual_leaves as nat));
            lemma_padded_bounds(self.actual_leaves as nat);
            assert(self.tree@[1]@ == tree_node(
                self@.leaves,
                self@.key,
                self@.flags,
                height(self.actual_leaves as nat),
                0,
            ));
        }
        let mut root = self.tree[1];
        root.flags = root.flags | ROOT;
        root
    }

    /// The number of leaf slots.
    pub fn num_leaves(&self) -> (r: usize)
        requires
            self.wf(),
        ensures
            r == padded_leaves(self@.leaves.len()),
    {
        self.number_of_leaves
    }

    /// The number of leaves.
    pub fn actual_leaves(&self) -> (r: usize)
        ensures
            r == self@.leaves.len(),
    {
        self.actual_leaves
    }
}

/// The least power of two not below `n`, as the number of leaf slots.
fn next_power_of_two(n: usize) -> (p: usize)
    requires
        1 <= n <= usize::MAX / 4,
    ensures
        p == padded_leaves(n as nat),
        p < 2 * n,
{
    let mut p: usize = 1;
    let mut c: usize = n;
    let ghost mut h: nat = 0;
    proof {
        lemma_height_bounds(n as nat);
    }
    while c > 1
        invariant
            1 <= c <= n,
            p == two_pow(h),
            h + height(c as nat) == height(n as nat),
            n <= two_pow(height(n as nat)),
            height(n as nat) > 0 ==> two_pow((height(n as nat) - 1) as nat) < n,
            n <= usize::MAX / 4,
        decreases c,
    {
        proof {
            lemma_two_pow_monotone(h, (height(n as nat) - 1) as nat);
        }
        c = (c + 1) / 2;
        p = p * 2;
        proof {
            h = h + 1;
        }
    }
    p
}

} // verus!
