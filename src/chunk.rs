//! The chunk accumulator: up to 1024 bytes, compressed 64 bytes at a time,
//! reduced to the chunk's `Output`.
use vstd::prelude::*;
use crate::compress::{
    block_words_spec, compress, compress_spec, first_8_words, words_from_little_endian_bytes, NodeState, Output, BLOCK_LEN,
    CHUNK_END, CHUNK_LEN, CHUNK_START,
};

verus! {

/// Accumulates the bytes of one chunk, compressing each full 64-byte block
/// once more input follows it.
#[derive(Debug, Clone, Copy)]
pub struct ChunkState {
    pub chaining_value: [u32; 8],
    pub chunk_counter: u64,
    pub block: [u8; 64],
    pub block_len: u8,
    pub blocks_compressed: u8,
    pub flags: u32,
}

/// What Verus sees of a `ChunkState`.
pub struct ChunkView {
    pub chaining_value: Seq<u32>,
    pub chunk_counter: u64,
    pub block: Seq<u8>,
    pub block_len: nat,
    pub blocks_compressed: nat,
    pub flags: u32,
}

impl View for ChunkState {
    type V = ChunkView;

    open spec fn view(&self) -> ChunkView {
        ChunkView {
            chaining_value: self.chaining_value@,
            chunk_counter: self.chunk_counter,
            block: self.block@,
            block_len: self.block_len as nat,
            blocks_compressed: self.blocks_compressed as nat,
            flags: self.flags,
        }
    }
}

/// The number of bytes a chunk state has taken in.
pub open spec fn chunk_len(s: ChunkView) -> nat {
    64 * s.blocks_compressed + s.block_len
}

/// A chunk state that has taken in at most one chunk of bytes.
pub open spec fn chunk_wf(s: ChunkView) -> bool {
    &&& s.block.len() == 64
    &&& s.chaining_value.len() == 8
    &&& s.block_len <= 64
    &&& chunk_len(s) <= 1024
}

pub open spec fn start_flag_of(s: ChunkView) -> u32 {
    if s.blocks_compressed == 0 {
        CHUNK_START
    } else {
        0
    }
}

/// The state of a fresh accumulator for chunk `counter`.
pub open spec fn new_chunk(key: Seq<u32>, counter: u64, flags: u32) -> ChunkView {
    ChunkView {
        chaining_value: key,
        chunk_counter: counter,
        block: Seq::new(64, |i: int| 0u8),
        block_len: 0,
        blocks_compressed: 0,
        flags,
    }
}

/// Compresses the full buffer into the chaining value and empties the buffer.
pub open spec fn compress_block(s: ChunkView) -> ChunkView {
    ChunkView {
        chaining_value: compress_spec(
            s.chaining_value,
            block_words_spec(s.block),
            s.chunk_counter,
            64,
            s.flags | start_flag_of(s),
        ).take(8),
        block: Seq::new(64, |i: int| 0u8),
        block_len: 0,
        blocks_compressed: s.blocks_compressed + 1,
        ..s
    }
}

/// Appends `bytes` to the buffer after the bytes it already holds.
pub open spec fn append_block(s: ChunkView, bytes: Seq<u8>) -> ChunkView {
    ChunkView {
        block: s.block.take(s.block_len as int) + bytes + s.block.skip((s.block_len + bytes.len()) as int),
        block_len: s.block_len + bytes.len(),
        ..s
    }
}

/// The state after taking in `input`: a full buffer is compressed only once
/// more input arrives, so the last block, even a full one, stays buffered.
pub open spec fn absorb(s: ChunkView, input: Seq<u8>) -> ChunkView
    decreases 2 * input.len() + (if s.block_len >= 64 { 1int } else { 0int }),
{
    if input.len() == 0 {
        s
    } else if s.block_len >= 64 {
        absorb(compress_block(s), input)
    } else {
        let take = if 64 - s.block_len < input.len() {
            (64 - s.block_len) as int
        } else {
            input.len() as int
        };
        absorb(append_block(s, input.take(take)), input.skip(take))
    }
}

/// The node that a chunk state finalises to.
pub open spec fn chunk_output_of(s: ChunkView) -> NodeState {
    NodeState {
        input_chaining_value: s.chaining_value,
        block_words: block_words_spec(s.block),
        counter: s.chunk_counter,
        block_len: s.block_len as u32,
        flags: s.flags | start_flag_of(s) | CHUNK_END,
    }
}

/// The node of chunk number `counter` holding `data`.
pub open spec fn chunk_node(key: Seq<u32>, counter: u64, flags: u32, data: Seq<u8>) -> NodeState {
    chunk_output_of(absorb(new_chunk(key, counter, flags), data))
}

/// Taking in `a` and then `b` is taking in `a + b`.
pub proof fn lemma_absorb_append(s: ChunkView, a: Seq<u8>, b: Seq<u8>)
    requires
        s.block.len() == 64,
        s.block_len <= 64,
    ensures
        absorb(s, a + b) == absorb(absorb(s, a), b),
    decreases 2 * a.len() + (if s.block_len >= 64 { 1int } else { 0int }),
{
    if a.len() == 0 {
        assert(a + b =~= b);
    } else if s.block_len >= 64 {
        lemma_absorb_append(compress_block(s), a, b);
    } else {
        let room = (64 - s.block_len) as int;
        if a.len() >= room {
            assert((a + b).take(room) =~= a.take(room));
            assert((a + b).skip(room) =~= a.skip(room) + b);
            lemma_absorb_append(append_block(s, a.take(room)), a.skip(room), b);
        } else {
            let s1 = append_block(s, a);
            assert(a.take(a.len() as int) =~= a);
            assert(a.skip(a.len() as int) =~= Seq::<u8>::empty());
            assert(absorb(s, a) == absorb(s1, Seq::<u8>::empty()));
            if b.len() == 0 {
                assert(a + b =~= a);
            } else {
                let t1 = if 64 - s1.block_len < b.len() {
                    (64 - s1.block_len) as int
                } else {
                    b.len() as int
                };
                let t = a.len() + t1;
                assert((a + b).take(t) =~= a + b.take(t1));
                assert((a + b).skip(t) =~= b.skip(t1));
                assert(append_block(s, a + b.take(t1)).block =~= append_block(s1, b.take(t1)).block);
            }
        }
    }
}

/// Taking in bytes keeps the buffer a block and counts them.
pub proof fn lemma_absorb_len(s: ChunkView, a: Seq<u8>)
    requires
        chunk_wf(s),
        chunk_len(s) + a.len() <= 1024,
    ensures
        chunk_wf(absorb(s, a)),
        chunk_len(absorb(s, a)) == chunk_len(s) + a.len(),
    decreases 2 * a.len() + (if s.block_len >= 64 { 1int } else { 0int }),
{
    if a.len() == 0 {
    } else if s.block_len >= 64 {
        lemma_absorb_len(compress_block(s), a);
    } else {
        let room = (64 - s.block_len) as int;
        let t = if room < a.len() {
            room
        } else {
            a.len() as int
        };
        lemma_absorb_len(append_block(s, a.take(t)), a.skip(t));
    }
}

impl ChunkState {
    /// An empty accumulator for chunk number `chunk_counter`.
    pub fn new(key_words: [u32; 8], chunk_counter: u64, flags: u32) -> (r: Self)
        ensures
            r@ == new_chunk(key_words@, chunk_counter, flags),
            chunk_wf(r@),
    {
        let r = ChunkState {
            chaining_value: key_words,
            chunk_counter,
            block: [0; 64],
            block_len: 0,
            blocks_compressed: 0,
            flags,
        };
        assert(r.block@ =~= Seq::new(64, |i: int| 0u8));
        r
    }

    /// The number of bytes taken in.
    pub fn len(&self) -> (r: usize)
        ensures
            r == chunk_len(self@),
    {
        BLOCK_LEN * self.blocks_compressed as usize + self.block_len as usize
    }

    /// `CHUNK_START` until the first block is compressed.
    pub fn start_flag(&self) -> (r: u32)
        ensures
            r == start_flag_of(self@),
    {
        if self.blocks_compressed == 0 {
            CHUNK_START
        } else {
            0
        }
    }

    /// Copies `input[pos .. pos + take]` into the buffer after its bytes.
    fn fill_block(&mut self, input: &[u8], pos: usize, take: usize)
        requires
            chunk_wf(old(self)@),
            old(self).block_len as int + take <= 64,
            pos + take <= input@.len(),
        ensures
            final(self)@ == append_block(old(self)@, input@.subrange(pos as int, pos + take)),
    {
        let start = self.block_len as usize;
        let n = input.len();
        let ghost b0 = self.block@;
        let mut t: usize = 0;
        while t < take
            invariant
                t <= take,
                start == old(self).block_len,
                start + take <= 64,
                pos + take <= n,
                n == input@.len(),
                b0.len() == 64,
                self@ == (ChunkView { block: self.block@, ..old(self)@ }),
                self.block@.len() == 64,
                forall|j: int| 0 <= j < start ==> #[trigger] self.block@[j] == b0[j],
                forall|j: int| start + t <= j < 64 ==> #[trigger] self.block@[j] == b0[j],
                forall|j: int|
                    start <= j < start + t ==> #[trigger] self.block@[j] == input@[pos + j - start],
            decreases take - t,
        {
            self.block[start + t] = input[pos + t];
            t = t + 1;
        }
        self.block_len = (start + take) as u8;
        assert(self.block@ =~= append_block(old(self)@, input@.subrange(pos as int, pos + take)).block);
    }

    /// Compresses the full buffer, not as the chunk's last block.
    fn compress_full_block(&mut self)
        requires
            chunk_wf(old(self)@),
            old(self).block_len == 64,
        ensures
            final(self)@ == compress_block(old(self)@),
            chunk_wf(final(self)@),
            chunk_len(final(self)@) == chunk_len(old(self)@),
    {
        let block_words = words_from_little_endian_bytes(&self.block);
        self.chaining_value =
        first_8_words(
            compress(
                &self.chaining_value,
                &block_words,
                self.chunk_counter,
                BLOCK_LEN as u32,
                self.flags | self.start_flag(),
            ),
        );
        self.blocks_compressed = self.blocks_compressed + 1;
        self.block = [0; 64];
        self.block_len = 0;
        assert(self.block@ =~= Seq::new(64, |i: int| 0u8));
    }

    /// The chunk's node: the buffered block, zero-padded, marked `CHUNK_END`.
    pub fn output(&self) -> (r: Output)
        ensures
            r@ == chunk_output_of(self@),
    {
        let block_words = words_from_little_endian_bytes(&self.block);
        Output {
            input_chaining_value: self.chaining_value,
            block_words,
            counter: self.chunk_counter,
            block_len: self.block_len as u32,
            flags: self.flags | self.start_flag() | CHUNK_END,
        }
    }

    /// Takes in `input` after the bytes taken in so far.
    pub fn update(&mut self, input: &[u8])
        requires
            chunk_wf(old(self)@),
            chunk_len(old(self)@) + input@.len() <= CHUNK_LEN,
        ensures
            final(self)@ == absorb(old(self)@, input@),
            final(self).chunk_counter == old(self).chunk_counter,
            final(self).flags == old(self).flags,
            chunk_wf(final(self)@),
            chunk_len(final(self)@) == chunk_len(old(self)@) + input@.len(),
    {
        let mut pos: usize = 0;
        assert(input@.skip(0) =~= input@);
        while pos < input.len()
            invariant
                pos <= input@.len(),
                self.chunk_counter == old(self).chunk_counter,
                self.flags == old(self).flags,
                chunk_wf(self@),
                chunk_len(self@) == chunk_len(old(self)@) + pos,
                chunk_len(old(self)@) + input@.len() <= CHUNK_LEN,
                absorb(self@, input@.skip(pos as int)) == absorb(old(self)@, input@),
            decreases input@.len() - pos,
        {
            let ghost rest = input@.skip(pos as int);
            if self.block_len as usize == BLOCK_LEN {
                self.compress_full_block();
            }
            let ghost s1 = self@;
            assert(absorb(s1, rest) == absorb(old(self)@, input@));
            let want = BLOCK_LEN - self.block_len as usize;
            let take = if want < input.len() - pos {
                want
            } else {
                input.len() - pos
            };
            self.fill_block(input, pos, take);
            assert(rest.take(take as int) =~= input@.subrange(pos as int, pos + take));
            assert(rest.skip(take as int) =~= input@.skip(pos + take));
            pos = pos + take;
        }
    }
}

} // verus!
