//! The streaming BLAKE3 hasher: a chunk accumulator and a stack of subtree
//! chaining values, one per set bit of the number of completed chunks.
use vstd::prelude::*;
use crate::chunk::{
    absorb, chunk_len, chunk_output_of, chunk_wf, lemma_absorb_append, lemma_absorb_len, new_chunk,
    ChunkState,
};
use crate::compress::{
    cv_of, iv_spec, parent_cv, parent_node, parent_output, root_bytes, NodeState, CHUNK_LEN, IV,
};
use crate::merkle::{chunk_bytes, chunk_count, input_chunks, two_pow};

verus! {

/// The largest power of two not above `x` (1 for `x <= 1`).
pub open spec fn lpow(x: int) -> nat
    decreases x,
{
    if x < 2 {
        1
    } else {
        2 * lpow(x / 2)
    }
}

/// The BLAKE3 tree over `ch[lo .. hi]`: the left subtree takes the largest
/// power of two of chunks that leaves the right one non-empty.
pub open spec fn subtree_node(ch: Seq<NodeState>, key: Seq<u32>, flags: u32, lo: int, hi: int) -> NodeState
    decreases hi - lo,
{
    if hi - lo <= 1 {
        ch[lo]
    } else {
        let p = lpow(hi - lo - 1) as int;
        if 0 < p < hi - lo {
            parent_node(
                cv_of(subtree_node(ch, key, flags, lo, lo + p)),
                cv_of(subtree_node(ch, key, flags, lo + p, hi)),
                key,
                flags,
            )
        } else {
            ch[lo]
        }
    }
}

/// The chaining values of the complete subtrees over `ch[lo .. lo + c]`,
/// largest first: one per set bit of `c`.
pub open spec fn stack_of(ch: Seq<NodeState>, key: Seq<u32>, flags: u32, lo: int, c: int) -> Seq<Seq<u32>>
    decreases c,
{
    if c <= 0 {
        Seq::empty()
    } else {
        let p = lpow(c) as int;
        if 0 < p <= c {
            seq![cv_of(subtree_node(ch, key, flags, lo, lo + p))] + stack_of(ch, key, flags, lo + p, c - p)
        } else {
            Seq::empty()
        }
    }
}

/// The right edge folded from the top of the stack down onto `last`.
pub open spec fn fold_stack(s: Seq<Seq<u32>>, last: NodeState, key: Seq<u32>, flags: u32) -> NodeState
    decreases s.len(),
{
    if s.len() == 0 {
        last
    } else {
        parent_node(s[0], cv_of(fold_stack(s.skip(1), last, key, flags)), key, flags)
    }
}

pub proof fn lemma_lpow_bounds(x: int)
    requires
        x >= 1,
    ensures
        1 <= lpow(x) <= x < 2 * lpow(x),
    decreases x,
{
    if x >= 2 {
        lemma_lpow_bounds(x / 2);
    }
}

/// Folding the stack of `c` chunks onto chunk `lo + c` gives the tree over `lo ..= lo + c`.
pub proof fn lemma_fold_stack(ch: Seq<NodeState>, key: Seq<u32>, flags: u32, lo: int, c: int)
    requires
        c >= 0,
    ensures
        fold_stack(stack_of(ch, key, flags, lo, c), ch[lo + c], key, flags) == subtree_node(
            ch,
            key,
            flags,
            lo,
            lo + c + 1,
        ),
    decreases c,
{
    if c > 0 {
        lemma_lpow_bounds(c);
        let p = lpow(c) as int;
        lemma_fold_stack(ch, key, flags, lo + p, c - p);
        let s = stack_of(ch, key, flags, lo, c);
        assert(s.skip(1) =~= stack_of(ch, key, flags, lo + p, c - p));
    }
}

pub proof fn lemma_lpow_of_range(c: int, i: nat)
    requires
        two_pow(i) <= c < 2 * two_pow(i),
    ensures
        lpow(c) == two_pow(i),
    decreases i,
{
    if i > 0 {
        lemma_lpow_of_range(c / 2, (i - 1) as nat);
    }
}

pub proof fn lemma_lpow_double(z: int)
    requires
        z >= 1,
    ensures
        lpow(2 * z) == 2 * lpow(z),
{
    assert((2 * z) / 2 == z);
}

pub proof fn lemma_lpow_scale(y: int, j: nat)
    requires
        y >= 1,
    ensures
        lpow(y * two_pow(j)) == lpow(y) * two_pow(j),
        y * two_pow(j) >= 1,
    decreases j,
{
    if j > 0 {
        let j1 = (j - 1) as nat;
        lemma_lpow_scale(y, j1);
        let z = y * two_pow(j1);
        assert(y * two_pow(j) == 2 * z) by (nonlinear_arith)
            requires
                two_pow(j) == 2 * two_pow(j1),
                z == y * two_pow(j1),
        ;
        lemma_lpow_double(z);
        assert(lpow(y) * two_pow(j) == 2 * (lpow(y) * two_pow(j1))) by (nonlinear_arith)
            requires
                two_pow(j) == 2 * two_pow(j1),
        ;
        assert(lpow(y * two_pow(j)) == lpow(2 * z));
    } else {
        assert(y * two_pow(j) == y) by (nonlinear_arith)
            requires
                two_pow(j) == 1,
        ;
    }
}

/// A stack over fewer than `2^k` chunks has at most `k` entries.
pub proof fn lemma_stack_len(ch: Seq<NodeState>, key: Seq<u32>, flags: u32, lo: int, c: int, k: nat)
    requires
        0 <= c < two_pow(k),
    ensures
        stack_of(ch, key, flags, lo, c).len() <= k,
    decreases k,
{
    if k > 0 && c > 0 {
        let k1 = (k - 1) as nat;
        if c < two_pow(k1) {
            lemma_stack_len(ch, key, flags, lo, c, k1);
            lemma_stack_shorter(ch, key, flags, lo, c, k1);
        } else {
            lemma_lpow_of_range(c, k1);
            let p = two_pow(k1) as int;
            lemma_stack_len(ch, key, flags, lo + p, c - p, k1);
        }
    }
}

/// `lemma_stack_len` restated for a bound one larger.
pub proof fn lemma_stack_shorter(ch: Seq<NodeState>, key: Seq<u32>, flags: u32, lo: int, c: int, k: nat)
    requires
        stack_of(ch, key, flags, lo, c).len() <= k,
    ensures
        stack_of(ch, key, flags, lo, c).len() <= k + 1,
{
}

/// One more complete subtree of `2^j` chunks after `x` chunks, `x` a multiple
/// of `2^(j+1)`, is one more entry on top of the stack.
pub proof fn lemma_stack_push(ch: Seq<NodeState>, key: Seq<u32>, flags: u32, lo: int, a: int, j: nat)
    requires
        a >= 0,
    ensures
        stack_of(ch, key, flags, lo, a * two_pow(j + 1) + two_pow(j)) == stack_of(
            ch,
            key,
            flags,
            lo,
            a * two_pow(j + 1),
        ).push(
            cv_of(
                subtree_node(
                    ch,
                    key,
                    flags,
                    lo + a * two_pow(j + 1),
                    lo + a * two_pow(j + 1) + two_pow(j),
                ),
            ),
        ),
    decreases a,
{
    let w = two_pow(j) as int;
    let w2 = two_pow(j + 1) as int;
    assert(w2 == 2 * w);
    crate::merkle::lemma_two_pow_positive(j);
    let x = a * w2;
    if a == 0 {
        assert(x == 0) by (nonlinear_arith)
            requires
                x == a * w2,
                a == 0,
        ;
        lemma_lpow_of_range(w, j);
        assert(stack_of(ch, key, flags, lo + w, 0) =~= Seq::<Seq<u32>>::empty());
        assert(stack_of(ch, key, flags, lo, w) =~= seq![cv_of(subtree_node(ch, key, flags, lo, lo + w))]);
        assert(stack_of(ch, key, flags, lo, 0) =~= Seq::<Seq<u32>>::empty());
    } else {
        lemma_lpow_scale(a, j + 1);
        lemma_lpow_scale(2 * a + 1, j);
        assert((2 * a + 1) / 2 == a);
        assert((2 * a + 1) * w == x + w) by (nonlinear_arith)
            requires
                x == a * w2,
                w2 == 2 * w,
        ;
        assert(lpow(x + w) == lpow(x)) by (nonlinear_arith)
            requires
                lpow(x + w) == lpow(2 * a + 1) * w,
                lpow(2 * a + 1) == 2 * lpow(a as int),
                lpow(x) == lpow(a as int) * w2,
                w2 == 2 * w,
        ;
        lemma_lpow_bounds(a as int);
        let la = lpow(a as int) as int;
        let p = lpow(x) as int;
        let a1 = a - la;
        assert(x - p == a1 * w2) by (nonlinear_arith)
            requires
                p == la * w2,
                x == a * w2,
                a1 == a - la,
        ;
        assert(p >= w2) by (nonlinear_arith)
            requires
                p == la * w2,
                la >= 1,
                w2 >= 1,
        ;
        lemma_lpow_bounds(x);
        lemma_stack_push(ch, key, flags, lo + p, a1, j);
        assert(stack_of(ch, key, flags, lo, x + w) =~= seq![cv_of(subtree_node(ch, key, flags, lo, lo + p))]
            + stack_of(ch, key, flags, lo + p, x - p + w));
        assert(stack_of(ch, key, flags, lo, x) =~= seq![cv_of(subtree_node(ch, key, flags, lo, lo + p))]
            + stack_of(ch, key, flags, lo + p, x - p));
        assert(stack_of(ch, key, flags, lo, x + w) =~= stack_of(ch, key, flags, lo, x).push(
            cv_of(subtree_node(ch, key, flags, lo + x, lo + x + w)),
        ));
    }
}

/// Two complete subtrees of `2^j` chunks side by side make one of `2^(j+1)`.
pub proof fn lemma_subtree_merge(ch: Seq<NodeState>, key: Seq<u32>, flags: u32, lo: int, j: nat)
    ensures
        subtree_node(ch, key, flags, lo, lo + two_pow(j + 1)) == parent_node(
            cv_of(subtree_node(ch, key, flags, lo, lo + two_pow(j))),
            cv_of(subtree_node(ch, key, flags, lo + two_pow(j), lo + two_pow(j + 1))),
            key,
            flags,
        ),
{
    crate::merkle::lemma_two_pow_positive(j);
    let w = two_pow(j) as int;
    assert(two_pow(j + 1) == 2 * w);
    lemma_lpow_of_range(2 * w - 1, j);
}

/// A subtree depends only on the chunks it covers.
pub proof fn lemma_subtree_frame(
    c1: Seq<NodeState>,
    c2: Seq<NodeState>,
    key: Seq<u32>,
    flags: u32,
    lo: int,
    hi: int,
)
    requires
        lo < hi,
        forall|i: int| lo <= i < hi ==> c1[i] == c2[i],
    ensures
        subtree_node(c1, key, flags, lo, hi) == subtree_node(c2, key, flags, lo, hi),
    decreases hi - lo,
{
    if hi - lo > 1 {
        let p = lpow(hi - lo - 1) as int;
        if 0 < p < hi - lo {
            lemma_subtree_frame(c1, c2, key, flags, lo, lo + p);
            lemma_subtree_frame(c1, c2, key, flags, lo + p, hi);
        }
    }
}

/// A stack depends only on the chunks it covers.
pub proof fn lemma_stack_frame(
    c1: Seq<NodeState>,
    c2: Seq<NodeState>,
    key: Seq<u32>,
    flags: u32,
    lo: int,
    c: int,
)
    requires
        forall|i: int| lo <= i < lo + c ==> c1[i] == c2[i],
    ensures
        stack_of(c1, key, flags, lo, c) == stack_of(c2, key, flags, lo, c),
    decreases c,
{
    if c > 0 {
        let p = lpow(c) as int;
        if 0 < p <= c {
            lemma_subtree_frame(c1, c2, key, flags, lo, lo + p);
            lemma_stack_frame(c1, c2, key, flags, lo + p, c - p);
        }
    }
}

/// The root node of BLAKE3 over `data`, before the `ROOT` flag is added.
pub open spec fn blake3_root(data: Seq<u8>, key: Seq<u32>, flags: u32) -> NodeState {
    subtree_node(input_chunks(data, key, flags), key, flags, 0, chunk_count(data.len()) as int)
}

/// `2^54` chunks of 1024 bytes are `2^64` bytes.
pub proof fn lemma_two_pow_54()
    ensures
        two_pow(54) == 0x40_0000_0000_0000,
{
    reveal_with_fuel(two_pow, 55);
}

/// An incremental hasher that can accept any number of writes.
pub struct Blake3Hasher {
    chunk_state: ChunkState,
    key_words: [u32; 8],
    cv_stack: [[u32; 8]; 54],
    cv_stack_len: u8,
    flags: u32,
    input: Ghost<Seq<u8>>,
}

impl View for Blake3Hasher {
    type V = Seq<u8>;

    /// The bytes taken in so far.
    closed spec fn view(&self) -> Seq<u8> {
        self.input@
    }
}

impl Blake3Hasher {
    pub closed spec fn key(&self) -> Seq<u32> {
        self.key_words@
    }

    pub closed spec fn mode_flags(&self) -> u32 {
        self.flags
    }

    /// The stack holds the chaining values of the complete subtrees of the
    /// completed chunks; the chunk state holds the rest of the input.
    pub closed spec fn wf(&self) -> bool {
        let c = self.chunk_state.chunk_counter as int;
        &&& self.state_holds()
        &&& c > 0 ==> self.input@.len() > 1024 * c
    }

    /// `wf`, but for a chunk just started and still empty.
    pub closed spec fn state_holds(&self) -> bool {
        let c = self.chunk_state.chunk_counter as int;
        let d = self.input@;
        let key = self.key_words@;
        let st = stack_of(input_chunks(d, key, self.flags), key, self.flags, 0, c);
        &&& d.len() <= u64::MAX
        &&& 1024 * c <= d.len() <= 1024 * c + 1024
        &&& chunk_wf(self.chunk_state@)
        &&& self.chunk_state@ == absorb(new_chunk(key, c as u64, self.flags), d.skip(1024 * c))
        &&& chunk_len(self.chunk_state@) == d.len() - 1024 * c
        &&& self.cv_stack_len as int == st.len()
        &&& forall|e: int| 0 <= e < st.len() ==> #[trigger] self.cv_stack[e]@ == st[e]
    }

    fn new_internal(key_words: [u32; 8], flags: u32) -> (r: Self)
        ensures
            r.wf(),
            r@ == Seq::<u8>::empty(),
            r.key() == key_words@,
            r.mode_flags() == flags,
    {
        let r = Self {
            chunk_state: ChunkState::new(key_words, 0, flags),
            key_words,
            cv_stack: [[0; 8]; 54],
            cv_stack_len: 0,
            flags,
            input: Ghost(Seq::empty()),
        };
        assert(Seq::<u8>::empty().skip(0) =~= Seq::<u8>::empty());
        r
    }

    /// A hasher for the regular hash function.
    pub fn new() -> (r: Self)
        ensures
            r.wf(),
            r@ == Seq::<u8>::empty(),
            r.key() == iv_spec(),
            r.mode_flags() == 0,
    {
        let r = Self::new_internal(IV, 0);
        assert(IV@ =~= iv_spec());
        r
    }

    fn push_stack(&mut self, cv: [u32; 8])
        requires
            old(self).cv_stack_len < 54,
        ensures
            final(self).cv_stack_len == old(self).cv_stack_len + 1,
            final(self).cv_stack@ == old(self).cv_stack@.update(old(self).cv_stack_len as int, cv),
            final(self).chunk_state == old(self).chunk_state,
            final(self).key_words == old(self).key_words,
            final(self).flags == old(self).flags,
            final(self).input == old(self).input,
    {
        self.cv_stack[self.cv_stack_len as usize] = cv;
        self.cv_stack_len = self.cv_stack_len + 1;
    }

    fn pop_stack(&mut self) -> (r: [u32; 8])
        requires
            0 < old(self).cv_stack_len <= 54,
        ensures
            final(self).cv_stack_len == old(self).cv_stack_len - 1,
            r == old(self).cv_stack@[final(self).cv_stack_len as int],
            final(self).cv_stack == old(self).cv_stack,
            final(self).chunk_state == old(self).chunk_state,
            final(self).key_words == old(self).key_words,
            final(self).flags == old(self).flags,
            final(self).input == old(self).input,
    {
        self.cv_stack_len = self.cv_stack_len - 1;
        self.cv_stack[self.cv_stack_len as usize]
    }

    /// Pushes the chaining value of chunk `total_chunks - 1`, first merging
    /// each complete subtree that it closes.
    fn add_chunk_chaining_value(
        &mut self,
        new_cv: [u32; 8],
        total_chunks: u64,
        Ghost(ch): Ghost<Seq<NodeState>>,
    )
        requires
            1 <= total_chunks < two_pow(54),
            old(self).cv_stack_len as int == stack_of(
                ch,
                old(self).key_words@,
                old(self).flags,
                0,
                total_chunks - 1,
            ).len(),
            forall|e: int|
                0 <= e < old(self).cv_stack_len ==> #[trigger] old(self).cv_stack[e]@ == stack_of(
                    ch,
                    old(self).key_words@,
                    old(self).flags,
                    0,
                    total_chunks - 1,
                )[e],
            new_cv@ == cv_of(ch[total_chunks - 1]),
        ensures
            final(self).cv_stack_len as int == stack_of(
                ch,
                old(self).key_words@,
                old(self).flags,
                0,
                total_chunks as int,
            ).len(),
            forall|e: int|
                0 <= e < final(self).cv_stack_len ==> #[trigger] final(self).cv_stack[e]@ == stack_of(
                    ch,
                    old(self).key_words@,
                    old(self).flags,
                    0,
                    total_chunks as int,
                )[e],
            final(self).chunk_state == old(self).chunk_state,
            final(self).key_words == old(self).key_words,
            final(self).flags == old(self).flags,
            final(self).input == old(self).input,
    {
        let ghost key = self.key_words@;
        let ghost fl = self.flags;
        let ghost m = total_chunks as int;
        let mut new_cv = new_cv;
        let mut total_chunks = total_chunks;
        let ghost mut j: nat = 0;
        proof {
            lemma_two_pow_54();
            lemma_stack_len(ch, key, fl, 0, m, 54);
            assert(m == total_chunks * two_pow(0)) by (nonlinear_arith)
                requires
                    two_pow(0) == 1,
                    m == total_chunks,
            ;
        }
        while total_chunks & 1 == 0
            invariant
                1 <= total_chunks,
                m == total_chunks * two_pow(j),
                1 <= m < two_pow(54),
                two_pow(54) == 0x40_0000_0000_0000,
                stack_of(ch, key, fl, 0, m).len() <= 54,
                self.key_words@ == key,
                self.flags == fl,
                self.chunk_state == old(self).chunk_state,
                self.key_words == old(self).key_words,
                self.flags == old(self).flags,
                self.input == old(self).input,
                new_cv@ == cv_of(subtree_node(ch, key, fl, m - two_pow(j), m)),
                self.cv_stack_len as int == stack_of(ch, key, fl, 0, m - two_pow(j)).len(),
                forall|e: int|
                    0 <= e < self.cv_stack_len ==> #[trigger] self.cv_stack[e]@ == stack_of(
                        ch,
                        key,
                        fl,
                        0,
                        m - two_pow(j),
                    )[e],
            decreases total_chunks,
        {
            let ghost t = total_chunks as int;
            let ghost u = t / 2;
            let ghost w = two_pow(j) as int;
            proof {
                assert(total_chunks & 1 == 0 ==> total_chunks % 2 == 0) by (bit_vector);
                crate::merkle::lemma_two_pow_positive(j);
                assert(two_pow(j + 1) == 2 * w);
                assert(m - w == (u - 1) * two_pow(j + 1) + w) by (nonlinear_arith)
                    requires
                        m == t * w,
                        t == 2 * u,
                        two_pow(j + 1) == 2 * w,
                ;
                assert(u >= 1);
                lemma_stack_push(ch, key, fl, 0, u - 1, j);
                assert((u - 1) * two_pow(j + 1) >= 0) by (nonlinear_arith)
                    requires
                        u >= 1,
                ;
                lemma_stack_len(ch, key, fl, 0, m - w, 54);
            }
            let left = self.pop_stack();
            new_cv = parent_cv(left, new_cv, self.key_words, self.flags);
            proof {
                let x = (u - 1) * two_pow(j + 1);
                lemma_subtree_merge(ch, key, fl, x, j);
                assert(x + two_pow(j + 1) == m) by (nonlinear_arith)
                    requires
                        x == (u - 1) * two_pow(j + 1),
                        m == t * w,
                        t == 2 * u,
                        two_pow(j + 1) == 2 * w,
                ;
                assert(m == u * two_pow(j + 1)) by (nonlinear_arith)
                    requires
                        m == t * w,
                        t == 2 * u,
                        two_pow(j + 1) == 2 * w,
                ;
                assert(total_chunks >> 1 == total_chunks / 2) by (bit_vector);
            }
            total_chunks = total_chunks >> 1;
            proof {
                j = j + 1;
            }
        }
        proof {
            let t = total_chunks as int;
            let u = t / 2;
            let w = two_pow(j) as int;
            assert(total_chunks & 1 != 0 ==> total_chunks % 2 == 1) by (bit_vector);
            crate::merkle::lemma_two_pow_positive(j);
            assert(two_pow(j + 1) == 2 * w);
            assert(m - w == u * two_pow(j + 1)) by (nonlinear_arith)
                requires
                    m == t * w,
                    t == 2 * u + 1,
                    two_pow(j + 1) == 2 * w,
            ;
            assert(u * two_pow(j + 1) >= 0) by (nonlinear_arith)
                requires
                    u >= 0,
            ;
            lemma_stack_push(ch, key, fl, 0, u, j);
        }
        self.push_stack(new_cv);
    }

    /// Pushes the chaining value of the full current chunk and starts the next one.
    fn complete_chunk(&mut self)
        requires
            old(self).wf(),
            chunk_len(old(self).chunk_state@) == 1024,
            old(self)@.len() < u64::MAX,
        ensures
            final(self).state_holds(),
            final(self)@ == old(self)@,
            chunk_len(final(self).chunk_state@) == 0,
            final(self).key_words == old(self).key_words,
            final(self).flags == old(self).flags,
    {
        let ghost key = self.key_words@;
        let ghost fl = self.flags;
        let ghost d = self.input@;
        let ghost c = self.chunk_state.chunk_counter as int;
        let ghost ch = input_chunks(d, key, fl);
        proof {
            assert(d.skip(1024 * c) =~= chunk_bytes(d, c));
            lemma_two_pow_54();
        }
        let chunk_cv = self.chunk_state.output().chaining_value();
        let total_chunks = self.chunk_state.chunk_counter + 1;
        self.add_chunk_chaining_value(chunk_cv, total_chunks, Ghost(ch));
        self.chunk_state = ChunkState::new(self.key_words, total_chunks, self.flags);
        assert(d.skip(1024 * (c + 1)) =~= Seq::<u8>::empty());
    }

    /// Takes in `input[pos .. pos + take]`, which fits in the current chunk.
    fn absorb_piece(&mut self, input: &[u8], pos: usize, take: usize)
        requires
            old(self).state_holds(),
            1 <= take,
            pos + take <= input@.len(),
            chunk_len(old(self).chunk_state@) + take <= 1024,
            old(self)@.len() + take <= u64::MAX,
        ensures
            final(self).wf(),
            final(self)@ == old(self)@ + input@.subrange(pos as int, pos + take),
            final(self).key_words == old(self).key_words,
            final(self).flags == old(self).flags,
    {
        let ghost key = self.key_words@;
        let ghost fl = self.flags;
        let ghost d = self.input@;
        let ghost c1 = self.chunk_state.chunk_counter as int;
        let ghost ch = input_chunks(d, key, fl);
        let n = input.len();
        assert(pos + take <= n);
        proof {
            lemma_absorb_len(self.chunk_state@, input@.subrange(pos as int, pos + take));
        }
        self.chunk_state.update(&input[pos..pos + take]);
        let ghost piece = input@.subrange(pos as int, pos + take);
        self.input = Ghost(d + piece);
        proof {
            let d2 = d + piece;
            assert(d2.skip(1024 * c1) =~= d.skip(1024 * c1) + piece);
            lemma_absorb_append(new_chunk(key, c1 as u64, fl), d.skip(1024 * c1), piece);
            assert forall|i: int| 0 <= i < c1 implies input_chunks(d2, key, fl)[i] == ch[i] by {
                assert(chunk_bytes(d2, i) =~= chunk_bytes(d, i));
            }
            lemma_stack_frame(ch, input_chunks(d2, key, fl), key, fl, 0, c1);
            assert(self.chunk_state@ == absorb(new_chunk(key, c1 as u64, fl), d2.skip(1024 * c1)));
            assert(self.state_holds());
        }
    }

    /// Takes in `input` after the bytes taken in so far.
    pub fn update(&mut self, input: &[u8])
        requires
            old(self).wf(),
            old(self)@.len() + input@.len() <= u64::MAX,
        ensures
            final(self).wf(),
            final(self)@ == old(self)@ + input@,
            final(self).key() == old(self).key(),
            final(self).mode_flags() == old(self).mode_flags(),
    {
        let mut pos: usize = 0;
        assert(input@.take(0) =~= Seq::<u8>::empty());
        assert(old(self)@ + input@.take(0) =~= old(self)@);
        while pos < input.len()
            invariant
                self.wf(),
                pos <= input@.len(),
                self@ == old(self)@ + input@.take(pos as int),
                old(self)@.len() + input@.len() <= u64::MAX,
                self.key_words == old(self).key_words,
                self.flags == old(self).flags,
            decreases input@.len() - pos,
        {
            if self.chunk_state.len() == CHUNK_LEN {
                self.complete_chunk();
            }
            let want = CHUNK_LEN - self.chunk_state.len();
            let take = if want < input.len() - pos {
                want
            } else {
                input.len() - pos
            };
            self.absorb_piece(input, pos, take);
            assert(input@.take(pos + take) =~= input@.take(pos as int) + input@.subrange(
                pos as int,
                pos + take,
            ));
            pos = pos + take;
        }
        assert(input@.take(input@.len() as int) =~= input@);
    }

    /// Writes the root output stream of the input taken in so far.
    pub fn finalize(&self, out_slice: &mut [u8])
        requires
            self.wf(),
        ensures
            final(out_slice)@ == root_bytes(
                blake3_root(self@, self.key(), self.mode_flags()),
                old(out_slice)@.len(),
            ),
    {
        let ghost key = self.key_words@;
        let ghost fl = self.flags;
        let ghost d = self.input@;
        let ghost c = self.chunk_state.chunk_counter as int;
        let ghost ch = input_chunks(d, key, fl);
        let ghost st = stack_of(ch, key, fl, 0, c);
        let mut output = self.chunk_state.output();
        proof {
            assert(d.skip(1024 * c) =~= chunk_bytes(d, c));
            if d.len() > 0 {
                assert(chunk_count(d.len()) == c + 1);
            }
            assert(st.skip(st.len() as int) =~= Seq::<Seq<u32>>::empty());
            lemma_two_pow_54();
            lemma_stack_len(ch, key, fl, 0, c, 54);
        }
        let mut parent_nodes_remaining = self.cv_stack_len as usize;
        while parent_nodes_remaining > 0
            invariant
                parent_nodes_remaining <= st.len(),
                st.len() == self.cv_stack_len,
                st.len() <= 54,
                self.wf(),
                st == stack_of(ch, key, fl, 0, c),
                d == self.input@,
                c == self.chunk_state.chunk_counter,
                ch == input_chunks(d, key, fl),
                key == self.key_words@,
                fl == self.flags,
                output@ == fold_stack(st.skip(parent_nodes_remaining as int), ch[c], key, fl),
            decreases parent_nodes_remaining,
        {
            parent_nodes_remaining = parent_nodes_remaining - 1;
            output =
            parent_output(
                self.cv_stack[parent_nodes_remaining],
                output.chaining_value(),
                self.key_words,
                self.flags,
            );
            assert(st.skip(parent_nodes_remaining as int).skip(1) =~= st.skip(
                parent_nodes_remaining + 1,
            ));
            assert(st.skip(parent_nodes_remaining as int)[0] == st[parent_nodes_remaining as int]);
            assert(self.cv_stack[parent_nodes_remaining as int]@ == st[parent_nodes_remaining as int]);
        }
        proof {
            assert(st.skip(0) =~= st);
            lemma_fold_stack(ch, key, fl, 0, c);
        }
        output.root_output_bytes(out_slice);
    }
}

} // verus!
