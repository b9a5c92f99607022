//! The BLAKE3 compression function and the `Output` record that every chunk
//! and parent node reduces to before the choice between a chaining value and
//! root output bytes is made.
use vstd::prelude::*;

verus! {

pub const OUT_LEN: usize = 32;

pub const BLOCK_LEN: usize = 64;

pub const CHUNK_LEN: usize = 1024;

pub const CHUNK_START: u32 = 1;

pub const CHUNK_END: u32 = 2;

pub const PARENT: u32 = 4;

pub const ROOT: u32 = 8;

/// The mode flags of the regular hash function.
pub const FLAGS: u32 = 0;

pub const IV: [u32; 8] = [
    0x6A09E667,
    0xBB67AE85,
    0x3C6EF372,
    0xA54FF53A,
    0x510E527F,
    0x9B05688C,
    0x1F83D9AB,
    0x5BE0CD19,
];

pub open spec fn iv_spec() -> Seq<u32> {
    seq![
        0x6A09E667u32,
        0xBB67AE85u32,
        0x3C6EF372u32,
        0xA54FF53Au32,
        0x510E527Fu32,
        0x9B05688Cu32,
        0x1F83D9ABu32,
        0x5BE0CD19u32,
    ]
}

/// Right rotation of a 32-bit word.
pub open spec fn rotr(x: u32, n: u32) -> u32 {
    (x >> n) | (x << (32 - n) as u32)
}

/// The quarter-round mix on state words `a`, `b`, `c`, `d` with message words `mx`, `my`.
#[verifier::opaque]
pub open spec fn g_spec(s: Seq<u32>, a: int, b: int, c: int, d: int, mx: u32, my: u32) -> Seq<u32> {
    let s = s.update(a, s[a].wrapping_add(s[b]).wrapping_add(mx));
    let s = s.update(d, rotr(s[d] ^ s[a], 16));
    let s = s.update(c, s[c].wrapping_add(s[d]));
    let s = s.update(b, rotr(s[b] ^ s[c], 12));
    let s = s.update(a, s[a].wrapping_add(s[b]).wrapping_add(my));
    let s = s.update(d, rotr(s[d] ^ s[a], 8));
    let s = s.update(c, s[c].wrapping_add(s[d]));
    s.update(b, rotr(s[b] ^ s[c], 7))
}

/// One round: four column mixes, then four diagonal mixes.
#[verifier::opaque]
pub open spec fn round_spec(s: Seq<u32>, m: Seq<u32>) -> Seq<u32> {
    let s = g_spec(s, 0, 4, 8, 12, m[0], m[1]);
    let s = g_spec(s, 1, 5, 9, 13, m[2], m[3]);
    let s = g_spec(s, 2, 6, 10, 14, m[4], m[5]);
    let s = g_spec(s, 3, 7, 11, 15, m[6], m[7]);
    let s = g_spec(s, 0, 5, 10, 15, m[8], m[9]);
    let s = g_spec(s, 1, 6, 11, 12, m[10], m[11]);
    let s = g_spec(s, 2, 7, 8, 13, m[12], m[13]);
    g_spec(s, 3, 4, 9, 14, m[14], m[15])
}

/// The message schedule permutation applied between rounds.
pub open spec fn permute_spec(m: Seq<u32>) -> Seq<u32> {
    seq![
        m[2], m[6], m[3], m[10], m[7], m[0], m[4], m[13],
        m[1], m[11], m[12], m[5], m[9], m[14], m[15], m[8],
    ]
}

/// `r` rounds, the message words permuted after each one.
pub open spec fn rounds_spec(s: Seq<u32>, m: Seq<u32>, r: nat) -> Seq<u32>
    decreases r,
{
    if r == 0 {
        s
    } else {
        rounds_spec(round_spec(s, m), permute_spec(m), (r - 1) as nat)
    }
}

/// The state a compression starts from.
pub open spec fn initial_state(cv: Seq<u32>, counter: u64, block_len: u32, flags: u32) -> Seq<u32> {
    cv.take(8) + iv_spec().take(4) + seq![
        counter as u32,
        (counter >> 32u64) as u32,
        block_len,
        flags,
    ]
}

/// The 16-word result of compressing one block under chaining value `cv`.
pub open spec fn compress_spec(
    cv: Seq<u32>,
    block: Seq<u32>,
    counter: u64,
    block_len: u32,
    flags: u32,
) -> Seq<u32> {
    let s = rounds_spec(initial_state(cv, counter, block_len, flags), block, 7);
    Seq::new(16, |i: int| if i < 8 { s[i] ^ s[i + 8] } else { s[i] ^ cv[i - 8] })
}

fn rotate_right(x: u32, n: u32) -> (r: u32)
    requires
        0 < n < 32,
    ensures
        r == rotr(x, n),
{
    (x >> n) | (x << (32 - n))
}

fn g(state: &mut [u32; 16], a: usize, b: usize, c: usize, d: usize, mx: u32, my: u32)
    requires
        a < 16,
        b < 16,
        c < 16,
        d < 16,
    ensures
        final(state)@ == g_spec(old(state)@, a as int, b as int, c as int, d as int, mx, my),
{
    state[a] = state[a].wrapping_add(state[b]).wrapping_add(mx);
    state[d] = rotate_right(state[d] ^ state[a], 16);
    state[c] = state[c].wrapping_add(state[d]);
    state[b] = rotate_right(state[b] ^ state[c], 12);
    state[a] = state[a].wrapping_add(state[b]).wrapping_add(my);
    state[d] = rotate_right(state[d] ^ state[a], 8);
    state[c] = state[c].wrapping_add(state[d]);
    state[b] = rotate_right(state[b] ^ state[c], 7);
    reveal(g_spec);
    assert(state@ =~= g_spec(old(state)@, a as int, b as int, c as int, d as int, mx, my));
}

fn round(state: &mut [u32; 16], m: &[u32; 16])
    ensures
        final(state)@ == round_spec(old(state)@, m@),
{
    g(state, 0, 4, 8, 12, m[0], m[1]);
    g(state, 1, 5, 9, 13, m[2], m[3]);
    g(state, 2, 6, 10, 14, m[4], m[5]);
    g(state, 3, 7, 11, 15, m[6], m[7]);
    g(state, 0, 5, 10, 15, m[8], m[9]);
    g(state, 1, 6, 11, 12, m[10], m[11]);
    g(state, 2, 7, 8, 13, m[12], m[13]);
    g(state, 3, 4, 9, 14, m[14], m[15]);
    reveal(round_spec);
}

fn permute(m: &mut [u32; 16])
    ensures
        final(m)@ == permute_spec(old(m)@),
{
    let permuted: [u32; 16] = [
        m[2], m[6], m[3], m[10], m[7], m[0], m[4], m[13],
        m[1], m[11], m[12], m[5], m[9], m[14], m[15], m[8],
    ];
    *m = permuted;
    assert(m@ =~= permute_spec(old(m)@));
}

pub(crate) fn first_8_words(w: [u32; 16]) -> (r: [u32; 8])
    ensures
        r@ == w@.take(8),
{
    let r: [u32; 8] = [w[0], w[1], w[2], w[3], w[4], w[5], w[6], w[7]];
    assert(r@ =~= w@.take(8));
    r
}

/// The final step of a compression: the two halves of the state are mixed
/// with each other and with the input chaining value.
fn feed_forward(state: &mut [u32; 16], chaining_value: &[u32; 8])
    ensures
        forall|j: int|
            0 <= j < 8 ==> #[trigger] final(state)@[j] == old(state)@[j] ^ old(state)@[j + 8],
        forall|j: int|
            8 <= j < 16 ==> #[trigger] final(state)@[j] == old(state)@[j] ^ chaining_value@[j
                - 8],
{
    let ghost s = state@;
    let mut i: usize = 0;
    while i < 8
        invariant
            0 <= i <= 8,
            state@.len() == 16,
            forall|j: int| 0 <= j < i ==> #[trigger] state@[j] == s[j] ^ s[j + 8],
            forall|j: int| 8 <= j < i + 8 ==> #[trigger] state@[j] == s[j] ^ chaining_value@[j - 8],
            forall|j: int| i <= j < 8 ==> #[trigger] state@[j] == s[j],
            forall|j: int| i + 8 <= j < 16 ==> #[trigger] state@[j] == s[j],
        decreases 8 - i,
    {
        state[i] = state[i] ^ state[i + 8];
        state[i + 8] = state[i + 8] ^ chaining_value[i];
        i = i + 1;
    }
}

pub(crate) fn compress(
    chaining_value: &[u32; 8],
    block_words: &[u32; 16],
    counter: u64,
    block_len: u32,
    flags: u32,
) -> (r: [u32; 16])
    ensures
        r@ == compress_spec(chaining_value@, block_words@, counter, block_len, flags),
{
    let counter_low = counter as u32;
    let counter_high = (counter >> 32) as u32;
    let mut state: [u32; 16] = [
        chaining_value[0], chaining_value[1], chaining_value[2], chaining_value[3],
        chaining_value[4], chaining_value[5], chaining_value[6], chaining_value[7],
        IV[0], IV[1], IV[2], IV[3],
        counter_low, counter_high, block_len, flags,
    ];
    let ghost s0 = initial_state(chaining_value@, counter, block_len, flags);
    assert(state@ =~= s0);
    let mut block = *block_words;
    let ghost m = block_words@;
    round(&mut state, &block);
    permute(&mut block);
    round(&mut state, &block);
    permute(&mut block);
    round(&mut state, &block);
    permute(&mut block);
    round(&mut state, &block);
    permute(&mut block);
    round(&mut state, &block);
    permute(&mut block);
    round(&mut state, &block);
    permute(&mut block);
    round(&mut state, &block);
    let ghost s7 = state@;
    assert(s7 == rounds_spec(s0, m, 7)) by {
        reveal_with_fuel(rounds_spec, 8);
    }
    feed_forward(&mut state, chaining_value);
    assert(state@ =~= compress_spec(chaining_value@, block_words@, counter, block_len, flags));
    state
}

/// Byte `k` (0 to 3) of a word in little-endian order.
pub open spec fn le_byte(w: u32, k: int) -> u8 {
    (w >> (8 * k) as u32) as u8
}

/// The word whose little-endian bytes are `b[4i .. 4i + 4]`.
pub open spec fn le_word(b: Seq<u8>, i: int) -> u32 {
    (b[4 * i] as u32) | ((b[4 * i + 1] as u32) << 8u32) | ((b[4 * i + 2] as u32) << 16u32) | ((b[4
        * i + 3] as u32) << 24u32)
}

/// The sixteen words read little-endian from a 64-byte block.
pub open spec fn block_words_spec(b: Seq<u8>) -> Seq<u32> {
    Seq::new(16, |i: int| le_word(b, i))
}

/// Reads a block as sixteen little-endian words.
pub fn words_from_little_endian_bytes(bytes: &[u8; 64]) -> (words: [u32; 16])
    ensures
        words@ == block_words_spec(bytes@),
{
    let mut words: [u32; 16] = [0; 16];
    let mut i: usize = 0;
    while i < 16
        invariant
            0 <= i <= 16,
            words@.len() == 16,
            forall|j: int| 0 <= j < i ==> #[trigger] words@[j] == le_word(bytes@, j),
        decreases 16 - i,
    {
        words[i] = (bytes[4 * i] as u32) | ((bytes[4 * i + 1] as u32) << 8) | ((bytes[4 * i
            + 2] as u32) << 16) | ((bytes[4 * i + 3] as u32) << 24);
        i = i + 1;
    }
    assert(words@ =~= block_words_spec(bytes@));
    words
}

/// The state of a chunk or parent node just before the choice between a
/// chaining value and root output bytes.
#[derive(Debug, Clone, Copy)]
pub struct Output {
    pub input_chaining_value: [u32; 8],
    pub block_words: [u32; 16],
    pub counter: u64,
    pub block_len: u32,
    pub flags: u32,
}

/// What Verus sees of an `Output`: the words as sequences.
pub struct NodeState {
    pub input_chaining_value: Seq<u32>,
    pub block_words: Seq<u32>,
    pub counter: u64,
    pub block_len: u32,
    pub flags: u32,
}

impl View for Output {
    type V = NodeState;

    open spec fn view(&self) -> NodeState {
        NodeState {
            input_chaining_value: self.input_chaining_value@,
            block_words: self.block_words@,
            counter: self.counter,
            block_len: self.block_len,
            flags: self.flags,
        }
    }
}

/// The 8-word chaining value of a node.
pub open spec fn cv_of(n: NodeState) -> Seq<u32> {
    compress_spec(n.input_chaining_value, n.block_words, n.counter, n.block_len, n.flags).take(8)
}

/// The 16 words of output block `i` of a root node.
pub open spec fn root_block(n: NodeState, i: int) -> Seq<u32> {
    compress_spec(n.input_chaining_value, n.block_words, i as u64, n.block_len, n.flags | ROOT)
}

/// The first `len` bytes of a root node's output stream.
pub open spec fn root_bytes(n: NodeState, len: nat) -> Seq<u8> {
    Seq::new(len, |i: int| le_byte(root_block(n, i / 64)[(i % 64) / 4], i % 4))
}

/// The parent node over two children's chaining values.
pub open spec fn parent_node(left: Seq<u32>, right: Seq<u32>, key: Seq<u32>, flags: u32) -> NodeState {
    NodeState {
        input_chaining_value: key,
        block_words: left + right,
        counter: 0,
        block_len: 64,
        flags: PARENT | flags,
    }
}

impl Output {
    /// The node's chaining value: the first 8 words of its compression.
    pub fn chaining_value(&self) -> (r: [u32; 8])
        ensures
            r@ == cv_of(self@),
    {
        first_8_words(
            compress(
                &self.input_chaining_value,
                &self.block_words,
                self.counter,
                self.block_len,
                self.flags,
            ),
        )
    }

    /// Fills `out_slice` with the root output stream: block `i` of 64 bytes
    /// is the compression with counter `i` and `ROOT` added to the flags.
    pub fn root_output_bytes(&self, out_slice: &mut [u8])
        ensures
            final(out_slice)@ == root_bytes(self@, old(out_slice)@.len()),
    {
        let len = out_slice.len();
        let mut words: [u32; 16] = [0; 16];
        let mut i: usize = 0;
        while i < len
            invariant
                i <= len,
                len == out_slice@.len(),
                len == old(out_slice)@.len(),
                i % 64 != 0 ==> words@ == root_block(self@, (i / 64) as int),
                forall|j: int|
                    0 <= j < i ==> #[trigger] out_slice@[j] == root_bytes(self@, len as nat)[j],
            decreases len - i,
        {
            if i % 64 == 0 {
                words =
                compress(
                    &self.input_chaining_value,
                    &self.block_words,
                    (i / 64) as u64,
                    self.block_len,
                    self.flags | ROOT,
                );
            }
            out_slice[i] = #[verifier::truncate] ((words[(i % 64) / 4] >> (8 * (i % 4)) as u32) as u8);
            i = i + 1;
        }
        assert(out_slice@ =~= root_bytes(self@, len as nat));
    }
}

/// The parent node over two children's chaining values.
pub fn parent_output(
    left_child_cv: [u32; 8],
    right_child_cv: [u32; 8],
    key_words: [u32; 8],
    flags: u32,
) -> (r: Output)
    ensures
        r@ == parent_node(left_child_cv@, right_child_cv@, key_words@, flags),
{
    let block_words: [u32; 16] = [
        left_child_cv[0], left_child_cv[1], left_child_cv[2], left_child_cv[3],
        left_child_cv[4], left_child_cv[5], left_child_cv[6], left_child_cv[7],
        right_child_cv[0], right_child_cv[1], right_child_cv[2], right_child_cv[3],
        right_child_cv[4], right_child_cv[5], right_child_cv[6], right_child_cv[7],
    ];
    assert(block_words@ =~= left_child_cv@ + right_child_cv@);
    Output {
        input_chaining_value: key_words,
        block_words,
        counter: 0,
        block_len: BLOCK_LEN as u32,
        flags: PARENT | flags,
    }
}

/// The chaining value of the parent node over two children's chaining values.
pub fn parent_cv(
    left_child_cv: [u32; 8],
    right_child_cv: [u32; 8],
    key_words: [u32; 8],
    flags: u32,
) -> (r: [u32; 8])
    ensures
        r@ == cv_of(parent_node(left_child_cv@, right_child_cv@, key_words@, flags)),
{
    parent_output(left_child_cv, right_child_cv, key_words, flags).chaining_value()
}

} // verus!
