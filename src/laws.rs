//! What holds across the library's functions: the heap tree and the
//! streaming hasher reach the same root, leaf updates are re-hashing, and the
//! tree's geometry.
use vstd::prelude::*;
use crate::chunk::{absorb, append_block, chunk_node, compress_block, new_chunk, ChunkView};
use crate::compress::{root_bytes, NodeState, ROOT};
use crate::hasher::{blake3_root, lemma_lpow_of_range, subtree_node};
use crate::merkle::{
    chunk_bytes, chunk_count, height, is_power_of_two, lemma_padded_bounds, strictly_ascending,
    updated_leaves, input_chunks, level_pop, padded_leaves, tree_node, tree_root, two_pow,
    with_root_flag, lemma_height_bounds, lemma_two_pow_positive,
};

verus! {

/// Offset `j` is real at level `k` exactly when its first leaf is.
pub proof fn lemma_level_pop_first_leaf(n: nat, k: nat, j: int)
    requires
        j >= 0,
    ensures
        (j < level_pop(n, k)) == (j * two_pow(k) < n),
    decreases k,
{
    if k == 0 {
        assert(j * 1 == j);
    } else {
        let k1 = (k - 1) as nat;
        lemma_level_pop_first_leaf(n, k1, 2 * j);
        assert((2 * j) * two_pow(k1) == j * two_pow(k)) by (nonlinear_arith)
            requires
                two_pow(k) == 2 * two_pow(k1),
        ;
    }
}

/// The node at offset `j` of level `k` is the BLAKE3 subtree over the leaves below it.
pub proof fn lemma_tree_node_is_subtree(
    leaves: Seq<NodeState>,
    key: Seq<u32>,
    flags: u32,
    k: nat,
    j: int,
)
    requires
        0 <= j < level_pop(leaves.len(), k),
    ensures
        tree_node(leaves, key, flags, k, j) == subtree_node(
            leaves,
            key,
            flags,
            j * two_pow(k),
            if j * two_pow(k) + two_pow(k) < leaves.len() {
                j * two_pow(k) + two_pow(k)
            } else {
                leaves.len() as int
            },
        ),
    decreases k,
{
    let n = leaves.len();
    lemma_level_pop_first_leaf(n, k, j);
    lemma_two_pow_positive(k);
    if k == 0 {
        assert(j * 1 == j);
    } else {
        let k1 = (k - 1) as nat;
        let w = two_pow(k1) as int;
        lemma_two_pow_positive(k1);
        let lo = j * two_pow(k);
        assert(lo == (2 * j) * w && lo + w == (2 * j + 1) * w && two_pow(k) == 2 * w) by (
        nonlinear_arith)
            requires
                two_pow(k) == 2 * w,
                lo == j * two_pow(k),
        ;
        lemma_level_pop_first_leaf(n, k1, 2 * j);
        lemma_level_pop_first_leaf(n, k1, 2 * j + 1);
        lemma_tree_node_is_subtree(leaves, key, flags, k1, 2 * j);
        if 2 * j + 1 < level_pop(n, k1) {
            lemma_tree_node_is_subtree(leaves, key, flags, k1, 2 * j + 1);
            let hi = if lo + 2 * w < n {
                lo + 2 * w
            } else {
                n as int
            };
            lemma_lpow_of_range(hi - lo - 1, k1);
        }
    }
}

/// The heap tree over any leaves has the BLAKE3 root over them.
pub proof fn lemma_tree_root_is_subtree(leaves: Seq<NodeState>, key: Seq<u32>, flags: u32)
    requires
        leaves.len() >= 1,
    ensures
        tree_root(leaves, key, flags) == subtree_node(leaves, key, flags, 0, leaves.len() as int),
{
    let n = leaves.len();
    let h = height(n);
    lemma_height_bounds(n);
    crate::merkle::lemma_level_bounds(n, h);
    lemma_tree_node_is_subtree(leaves, key, flags, h, 0);
    assert(0 * two_pow(h) == 0);
}

/// For every input, the tree built from it has the root node of the streaming
/// hasher, and so the same output bytes, of any length, from its `root()`.
pub proof fn lemma_oracle_agreement(data: Seq<u8>, key: Seq<u32>, flags: u32, len: nat)
    ensures
        tree_root(input_chunks(data, key, flags), key, flags) == blake3_root(data, key, flags),
        root_bytes(with_root_flag(tree_root(input_chunks(data, key, flags), key, flags)), len)
            == root_bytes(blake3_root(data, key, flags), len),
{
    let leaves = input_chunks(data, key, flags);
    lemma_tree_root_is_subtree(leaves, key, flags);
    let r = tree_root(leaves, key, flags);
    let f = r.flags;
    assert((f | 8u32) | 8u32 == f | 8u32) by (bit_vector);
    assert(root_bytes(with_root_flag(r), len) =~= root_bytes(r, len));
}

/// `data` with the bytes of chunk `i` replaced by `bytes`.
pub open spec fn replace_chunk(data: Seq<u8>, i: int, bytes: Seq<u8>) -> Seq<u8> {
    let end = if 1024 * (i + 1) < data.len() {
        1024 * (i + 1)
    } else {
        data.len() as int
    };
    data.take(1024 * i) + bytes + data.skip(end)
}

/// Replacing one chunk by bytes that keep every chunk boundary: a full chunk
/// for any chunk but the last; a non-empty one for the last, unless it is the only one.
pub open spec fn keeps_boundaries(data: Seq<u8>, i: int, bytes: Seq<u8>) -> bool {
    let c = chunk_count(data.len());
    &&& 0 <= i < c
    &&& bytes.len() <= 1024
    &&& i < c - 1 ==> bytes.len() == 1024
    &&& i == c - 1 && i > 0 ==> bytes.len() >= 1
}

/// Setting leaf `i` of the tree over `data` to the node of new chunk bytes
/// gives the leaves, and so the root, of `data` with that chunk replaced.
pub proof fn lemma_leaf_update_is_rehash(
    data: Seq<u8>,
    key: Seq<u32>,
    flags: u32,
    i: int,
    bytes: Seq<u8>,
)
    requires
        keeps_boundaries(data, i, bytes),
    ensures
        input_chunks(data, key, flags).update(i, chunk_node(key, i as u64, flags, bytes))
            == input_chunks(replace_chunk(data, i, bytes), key, flags),
        tree_root(
            input_chunks(data, key, flags).update(i, chunk_node(key, i as u64, flags, bytes)),
            key,
            flags,
        ) == blake3_root(replace_chunk(data, i, bytes), key, flags),
{
    let len = data.len() as int;
    let c = chunk_count(data.len()) as int;
    let d2 = replace_chunk(data, i, bytes);
    let b = bytes.len() as int;
    if len > 0 {
        assert(1024 * (c - 1) < len <= 1024 * c) by (nonlinear_arith)
            requires
                c == (len + 1023) / 1024,
                len > 0,
        ;
    }
    let end = if 1024 * (i + 1) < len {
        1024 * (i + 1)
    } else {
        len
    };
    assert(1024 * i <= len);
    assert(d2.len() == 1024 * i + b + (len - end));
    if i < c - 1 {
        assert(end == 1024 * (i + 1));
        assert(d2.len() == len);
    } else {
        assert(end == len);
        if d2.len() > 0 {
            assert(chunk_count(d2.len()) == i + 1) by (nonlinear_arith)
                requires
                    d2.len() == 1024 * i + b,
                    i > 0 ==> b >= 1,
                    b <= 1024,
                    d2.len() > 0,
                    chunk_count(d2.len()) == (d2.len() + 1023) / 1024,
            ;
        }
    }
    assert(chunk_count(d2.len()) == c);
    assert forall|t: int| 0 <= t < c implies #[trigger] chunk_bytes(d2, t) == (if t == i {
        bytes
    } else {
        chunk_bytes(data, t)
    }) by {
        if t == i {
            assert(chunk_bytes(d2, t) =~= bytes);
        } else if t < i {
            assert(1024 * (t + 1) <= 1024 * i);
            assert(chunk_bytes(d2, t) =~= chunk_bytes(data, t));
        } else {
            assert(1024 * t >= 1024 * (i + 1));
            assert(chunk_bytes(d2, t) =~= chunk_bytes(data, t));
        }
    }
    assert(input_chunks(data, key, flags).update(i, chunk_node(key, i as u64, flags, bytes))
        =~= input_chunks(d2, key, flags));
    lemma_oracle_agreement(d2, key, flags, 0);
}

/// Taking in bytes keeps a chunk state's mode flags.
pub proof fn lemma_absorb_flags(s: ChunkView, a: Seq<u8>)
    ensures
        absorb(s, a).flags == s.flags,
    decreases 2 * a.len() + (if s.block_len >= 64 { 1int } else { 0int }),
{
    if a.len() == 0 {
    } else if s.block_len >= 64 {
        lemma_absorb_flags(compress_block(s), a);
    } else {
        let room = (64 - s.block_len) as int;
        let t = if room < a.len() {
            room
        } else {
            a.len() as int
        };
        lemma_absorb_flags(append_block(s, a.take(t)), a.skip(t));
    }
}

/// With mode flags that leave out `ROOT`, no node of the tree over the chunks
/// of an input carries `ROOT`, and the root that `root()` hands out does.
pub proof fn lemma_root_flag(data: Seq<u8>, key: Seq<u32>, flags: u32, k: nat, j: int)
    requires
        flags & ROOT == 0,
        0 <= j < level_pop(chunk_count(data.len()), k),
    ensures
        tree_node(input_chunks(data, key, flags), key, flags, k, j).flags & ROOT == 0,
        with_root_flag(tree_root(input_chunks(data, key, flags), key, flags)).flags & ROOT == ROOT,
    decreases k,
{
    let leaves = input_chunks(data, key, flags);
    let rf = tree_root(leaves, key, flags).flags;
    assert((rf | 8u32) & 8u32 == 8u32) by (bit_vector);
    if k == 0 {
        let s = absorb(new_chunk(key, j as u64, flags), chunk_bytes(data, j));
        lemma_absorb_flags(new_chunk(key, j as u64, flags), chunk_bytes(data, j));
        let sf: u32 = if s.blocks_compressed == 0 {
            1
        } else {
            0
        };
        assert(flags & 8u32 == 0 && (sf == 0 || sf == 1) ==> (flags | sf | 2u32) & 8u32 == 0)
            by (bit_vector);
    } else {
        let k1 = (k - 1) as nat;
        lemma_root_flag(data, key, flags, k1, 2 * j);
        assert(flags & 8u32 == 0 ==> (4u32 | flags) & 8u32 == 0) by (bit_vector);
    }
}

/// The number of leaf slots is the next power of two of the number of
/// leaves: a power of two, not below it, below twice it, and 1 for one leaf.
pub proof fn lemma_geometry(n: nat)
    requires
        n >= 1,
    ensures
        is_power_of_two(padded_leaves(n)),
        n <= padded_leaves(n) < 2 * n,
        padded_leaves(1) == 1,
{
    lemma_padded_bounds(n);
    assert(height(1) == 0);
}

/// Updates at strictly ascending indices, applied one after another as
/// successive `insert_leaf` calls apply them and as `bulk_insert_leaves`
/// records them, set each named leaf to its output and keep every other leaf.
pub proof fn lemma_updates_pointwise(leaves: Seq<NodeState>, idx: Seq<usize>, outs: Seq<NodeState>)
    requires
        strictly_ascending(idx),
        forall|t: int| 0 <= t < idx.len() ==> idx[t] < leaves.len(),
        outs.len() == idx.len(),
    ensures
        updated_leaves(leaves, idx, outs).len() == leaves.len(),
        forall|t: int|
            0 <= t < idx.len() ==> #[trigger] updated_leaves(leaves, idx, outs)[idx[t] as int]
                == outs[t],
        forall|i: int|
            0 <= i < leaves.len() && (forall|t: int| 0 <= t < idx.len() ==> idx[t] != i)
                ==> #[trigger] updated_leaves(leaves, idx, outs)[i] == leaves[i],
    decreases idx.len(),
{
    if idx.len() > 0 {
        let d = idx.drop_last();
        let m = idx.len() - 1;
        assert forall|a: int, b: int| 0 <= a < b < d.len() implies d[a] < d[b] by {
            assert(d[a] == idx[a] && d[b] == idx[b]);
        }
        assert forall|t: int| 0 <= t < d.len() implies d[t] < leaves.len() by {
            assert(d[t] == idx[t]);
        }
        lemma_updates_pointwise(leaves, d, outs.take(m));
        lemma_updated_prefix_outs(leaves, d, outs);
        assert forall|t: int| 0 <= t < idx.len() implies #[trigger] updated_leaves(
            leaves,
            idx,
            outs,
        )[idx[t] as int] == outs[t] by {
            if t < m {
                assert(idx[t] < idx[m]);
                assert(d[t] == idx[t]);
            }
        }
        assert forall|i: int|
            0 <= i < leaves.len() && (forall|t: int| 0 <= t < idx.len() ==> idx[t] != i)
                implies #[trigger] updated_leaves(leaves, idx, outs)[i] == leaves[i] by {
            assert(idx[m] != i);
            assert forall|t: int| 0 <= t < d.len() implies d[t] != i by {
                assert(d[t] == idx[t]);
            }
        }
    }
}

/// The updates read only the outputs that they name.
pub proof fn lemma_updated_prefix_outs(leaves: Seq<NodeState>, idx: Seq<usize>, outs: Seq<NodeState>)
    requires
        idx.len() <= outs.len(),
    ensures
        updated_leaves(leaves, idx, outs) == updated_leaves(leaves, idx, outs.take(idx.len() as int)),
    decreases idx.len(),
{
    if idx.len() > 0 {
        let d = idx.drop_last();
        lemma_updated_prefix_outs(leaves, d, outs);
        lemma_updated_prefix_outs(leaves, d, outs.take(idx.len() as int));
        assert(outs.take(idx.len() as int).take(d.len() as int) =~= outs.take(d.len() as int));
    }
}

/// `data` with chunk `idx[t]` replaced by `bytes[t]`, for `t` in order.
pub open spec fn replace_chunks(data: Seq<u8>, idx: Seq<usize>, bytes: Seq<Seq<u8>>) -> Seq<u8>
    decreases idx.len(),
{
    if idx.len() == 0 {
        data
    } else {
        replace_chunk(
            replace_chunks(data, idx.drop_last(), bytes),
            idx.last() as int,
            bytes[idx.len() - 1],
        )
    }
}

/// Chunk updates that each keep every chunk boundary, applied to the tree's
/// leaves as `bulk_insert_leaves` or successive `insert_leaf` calls apply
/// them, give the leaves, and so the root, of the input with those chunks replaced.
pub proof fn lemma_chunk_updates_are_rehash(
    data: Seq<u8>,
    key: Seq<u32>,
    flags: u32,
    idx: Seq<usize>,
    bytes: Seq<Seq<u8>>,
)
    requires
        bytes.len() == idx.len(),
        forall|t: int| 0 <= t < idx.len() ==> #[trigger] keeps_boundaries(data, idx[t] as int, bytes[t]),
    ensures
        updated_leaves(
            input_chunks(data, key, flags),
            idx,
            Seq::new(idx.len(), |t: int| chunk_node(key, idx[t] as u64, flags, bytes[t])),
        ) == input_chunks(replace_chunks(data, idx, bytes), key, flags),
        tree_root(
            updated_leaves(
                input_chunks(data, key, flags),
                idx,
                Seq::new(idx.len(), |t: int| chunk_node(key, idx[t] as u64, flags, bytes[t])),
            ),
            key,
            flags,
        ) == blake3_root(replace_chunks(data, idx, bytes), key, flags),
    decreases idx.len(),
{
    let outs = Seq::new(idx.len(), |t: int| chunk_node(key, idx[t] as u64, flags, bytes[t]));
    if idx.len() > 0 {
        let d = idx.drop_last();
        let m = idx.len() - 1;
        let bd = bytes.take(m);
        assert forall|t: int| 0 <= t < d.len() implies #[trigger] keeps_boundaries(
            data,
            d[t] as int,
            bd[t],
        ) by {
            assert(d[t] == idx[t] && bd[t] == bytes[t]);
            assert(keeps_boundaries(data, idx[t] as int, bytes[t]));
        }
        lemma_chunk_updates_are_rehash(data, key, flags, d, bd);
        let outs_d = Seq::new(d.len(), |t: int| chunk_node(key, d[t] as u64, flags, bd[t]));
        lemma_updated_prefix_outs(input_chunks(data, key, flags), d, outs);
        assert(outs.take(m) =~= outs_d);
        assert(replace_chunks(data, d, bytes) == replace_chunks(data, d, bd)) by {
            lemma_replace_prefix_bytes(data, d, bytes);
        }
        let mid = replace_chunks(data, d, bd);
        assert forall|t: int| 0 <= t < d.len() implies d[t] != -1 && d[t] < input_chunks(
            data,
            key,
            flags,
        ).len() by {
            assert(keeps_boundaries(data, d[t] as int, bd[t]));
        }
        crate::merkle::lemma_updated_untouched(input_chunks(data, key, flags), d, outs_d, -1);
        assert(input_chunks(mid, key, flags).len() == input_chunks(data, key, flags).len());
        assert(keeps_boundaries(data, idx[m] as int, bytes[m]));
        assert(keeps_boundaries(mid, idx[m] as int, bytes[m]));
        lemma_leaf_update_is_rehash(mid, key, flags, idx[m] as int, bytes[m]);
    } else {
        lemma_oracle_agreement(data, key, flags, 0);
    }
    lemma_oracle_agreement(replace_chunks(data, idx, bytes), key, flags, 0);
}

/// The replacements read only the byte strings that they name.
pub proof fn lemma_replace_prefix_bytes(data: Seq<u8>, idx: Seq<usize>, bytes: Seq<Seq<u8>>)
    requires
        idx.len() <= bytes.len(),
    ensures
        replace_chunks(data, idx, bytes) == replace_chunks(data, idx, bytes.take(idx.len() as int)),
    decreases idx.len(),
{
    if idx.len() > 0 {
        let d = idx.drop_last();
        lemma_replace_prefix_bytes(data, d, bytes);
        lemma_replace_prefix_bytes(data, d, bytes.take(idx.len() as int));
        assert(bytes.take(idx.len() as int).take(d.len() as int) =~= bytes.take(d.len() as int));
    }
}

} // verus!
