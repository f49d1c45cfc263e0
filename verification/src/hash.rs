//! Block hashes of a prompt.
//!
//! A prompt is cut into tokens, the tokens into blocks, and each block is hashed. The hash under
//! which a block is cached is cumulative: it covers the whole prefix up to that block.

use vstd::arithmetic::div_mod::*;
use vstd::prelude::*;
use vstd::utf8::*;

use crate::text;

verus! {

/// How many tokens make a block. The last block of a prompt may have fewer.
pub const BLOCK_SIZE: usize = 4;

/// The offset basis of the 64-bit FNV-1a hash.
pub const FNV_OFFSET: u64 = 14695981039346656037;

/// The prime of the 64-bit FNV-1a hash.
pub const FNV_PRIME: u64 = 1099511628211;

/// The byte that ends each token of a block. It occurs in no UTF-8 text.
pub const TOKEN_END: u8 = 0xff;

/// The hash of a block, or of a run of blocks.
pub type BlockHash = u64;

/// `hash` with one more byte taken in: exclusive or, then the low 64 bits of the product with
/// the prime.
pub open spec fn fnv1a_step(hash: u64, byte: u8) -> u64 {
    (((hash ^ (byte as u64)) * FNV_PRIME) % 0x1_0000_0000_0000_0000) as u64
}

/// The 64-bit FNV-1a hash of `bytes`.
pub open spec fn fnv1a(bytes: Seq<u8>) -> u64
    decreases bytes.len(),
{
    if bytes.len() == 0 {
        FNV_OFFSET
    } else {
        fnv1a_step(fnv1a(bytes.drop_last()), bytes.last())
    }
}

/// The 64-bit FNV-1a hash of `bytes`.
pub fn fnv1a64(bytes: &[u8]) -> (hash: u64)
    ensures
        hash == fnv1a(bytes@),
{
    let mut hash: u64 = FNV_OFFSET;
    let mut i: usize = 0;
    assert(bytes@.take(0) =~= Seq::<u8>::empty());
    while i < bytes.len()
        invariant
            i <= bytes@.len(),
            hash == fnv1a(bytes@.take(i as int)),
        decreases bytes@.len() - i,
    {
        assert(bytes@.take(i + 1).drop_last() =~= bytes@.take(i as int));
        hash = hash ^ (bytes[i] as u64);
        hash = hash.wrapping_mul(FNV_PRIME);
        i = i + 1;
    }
    assert(bytes@.take(bytes@.len() as int) =~= bytes@);
    hash
}

/// The tokens of a prompt.
pub fn tokenize(prompt: &str) -> (tokens: Vec<String>)
    ensures
        text::texts(tokens@) == text::tokens(prompt@),
{
    text::split_tokens(prompt)
}

/// The bytes that are hashed for a block: its tokens in UTF-8, each with [`TOKEN_END`] behind it.
pub open spec fn block_bytes(tokens: Seq<Seq<char>>) -> Seq<u8>
    decreases tokens.len(),
{
    if tokens.len() == 0 {
        seq![]
    } else {
        (block_bytes(tokens.drop_last()) + encode_utf8(tokens.last())).push(TOKEN_END)
    }
}

/// The hash of one block, by itself.
pub open spec fn block_hash(tokens: Seq<Seq<char>>) -> BlockHash {
    fnv1a(block_bytes(tokens))
}

/// The hash of one block, by itself.
pub fn hash_block(tokens: &[String]) -> (hash: BlockHash)
    ensures
        hash == block_hash(text::texts(tokens@)),
{
    let mut bytes: Vec<u8> = Vec::new();
    let mut i: usize = 0;
    let ghost all = text::texts(tokens@);
    while i < tokens.len()
        invariant
            i <= tokens@.len(),
            all == text::texts(tokens@),
            bytes@ == block_bytes(all.take(i as int)),
        decreases tokens@.len() - i,
    {
        assert(all.take(i + 1).drop_last() =~= all.take(i as int));
        bytes.extend_from_slice(tokens[i].as_str().as_bytes());
        bytes.push(TOKEN_END);
        assert(bytes@ =~= block_bytes(all.take(i + 1)));
        i = i + 1;
    }
    assert(all.take(tokens@.len() as int) =~= all);
    fnv1a64(&bytes)
}

/// The eight bytes of `value`, the lowest first.
pub open spec fn little_endian(value: u64) -> Seq<u8> {
    Seq::new(8, |i: int| ((value >> ((8 * i) as u64)) & 0xff) as u8)
}

/// The cumulative hash of a block, given that of the blocks before it.
pub open spec fn combined(prev: BlockHash, block_hash: BlockHash) -> BlockHash {
    fnv1a(little_endian(prev) + little_endian(block_hash))
}

/// Appends the eight bytes of `value`, the lowest first.
fn push_little_endian(bytes: &mut Vec<u8>, value: u64)
    ensures
        final(bytes)@ == old(bytes)@ + little_endian(value),
{
    let mut i: u64 = 0;
    while i < 8
        invariant
            i <= 8,
            bytes@ == old(bytes)@ + little_endian(value).take(i as int),
        decreases 8 - i,
    {
        let byte: u64 = (value >> (8 * i)) & 0xff;
        assert((value >> ((8 * i) as u64)) & 0xff <= 0xff) by (bit_vector);
        bytes.push(byte as u8);
        assert(little_endian(value).take(i + 1) =~= little_endian(value).take(i as int).push(
            byte as u8,
        ));
        i = i + 1;
    }
    assert(little_endian(value).take(8) =~= little_endian(value));
}

/// The cumulative hash of a block, given that of the blocks before it.
pub fn combine_cumulative(prev: BlockHash, block_hash: BlockHash) -> (hash: BlockHash)
    ensures
        hash == combined(prev, block_hash),
{
    let mut bytes: Vec<u8> = Vec::with_capacity(16);
    push_little_endian(&mut bytes, prev);
    push_little_endian(&mut bytes, block_hash);
    assert(bytes@ =~= little_endian(prev) + little_endian(block_hash));
    fnv1a64(&bytes)
}

/// How many blocks `count` tokens make.
pub open spec fn block_count(count: nat) -> nat {
    (count + BLOCK_SIZE as nat - 1) as nat / BLOCK_SIZE as nat
}

/// The tokens of block `i`.
pub open spec fn block_tokens(tokens: Seq<Seq<char>>, i: int) -> Seq<Seq<char>> {
    let start = i * BLOCK_SIZE;
    if start + BLOCK_SIZE <= tokens.len() {
        tokens.subrange(start, start + BLOCK_SIZE)
    } else {
        tokens.skip(start)
    }
}

/// The hashes of the blocks that `tokens` make, each by itself.
pub open spec fn block_hashes(tokens: Seq<Seq<char>>) -> Seq<BlockHash> {
    Seq::new(block_count(tokens.len()), |i: int| block_hash(block_tokens(tokens, i)))
}

/// The hashes of the blocks of a prompt, each by itself.
pub fn prompt_to_block_hashes(prompt: &str) -> (hashes: Vec<BlockHash>)
    ensures
        hashes@ == block_hashes(text::tokens(prompt@)),
{
    let tokens = tokenize(prompt);
    let ghost all = text::tokens(prompt@);
    let mut hashes: Vec<BlockHash> = Vec::new();
    let mut start: usize = 0;
    while start < tokens.len()
        invariant
            text::texts(tokens@) == all,
            start == hashes@.len() * BLOCK_SIZE || start == tokens@.len(),
            start <= tokens@.len(),
            hashes@.len() == block_count(start as nat),
            forall|i: int|
                0 <= i < hashes@.len() ==> #[trigger] hashes@[i] == block_hash(
                    block_tokens(all, i),
                ),
        decreases tokens@.len() - start,
    {
        let end: usize = if tokens.len() - start < BLOCK_SIZE {
            tokens.len()
        } else {
            start + BLOCK_SIZE
        };
        let chunk: &[String] = vstd::slice::slice_subrange(tokens.as_slice(), start, end);
        assert(text::texts(chunk@) =~= block_tokens(all, hashes@.len() as int));
        hashes.push(hash_block(chunk));
        start = end;
    }
    assert(hashes@ =~= block_hashes(all));
    hashes
}

/// The cumulative hashes of some blocks, the first of them taken up by `seed`.
pub open spec fn chained(seed: BlockHash, hashes: Seq<BlockHash>) -> Seq<BlockHash>
    decreases hashes.len(),
{
    if hashes.len() == 0 {
        seq![]
    } else {
        let before = chained(seed, hashes.drop_last());
        let prev = if before.len() == 0 {
            seed
        } else {
            before.last()
        };
        before.push(combined(prev, hashes.last()))
    }
}

/// The cumulative hashes of some blocks.
pub open spec fn cumulative(hashes: Seq<BlockHash>) -> Seq<BlockHash> {
    chained(0, hashes)
}

/// The cumulative hashes of some blocks.
pub fn cumulative_hashes_from_blocks(block_hashes: &[BlockHash]) -> (hashes: Vec<BlockHash>)
    ensures
        hashes@ == cumulative(block_hashes@),
{
    let mut hashes: Vec<BlockHash> = Vec::with_capacity(block_hashes.len());
    let mut prev: BlockHash = 0;
    let mut i: usize = 0;
    while i < block_hashes.len()
        invariant
            i <= block_hashes@.len(),
            hashes@.len() == i,
            hashes@ == cumulative(block_hashes@.take(i as int)),
            prev == if i == 0 {
                0
            } else {
                hashes@[i - 1]
            },
        decreases block_hashes@.len() - i,
    {
        assert(block_hashes@.take(i + 1).drop_last() =~= block_hashes@.take(i as int));
        prev = combine_cumulative(prev, block_hashes[i]);
        hashes.push(prev);
        i = i + 1;
    }
    assert(block_hashes@.take(block_hashes@.len() as int) =~= block_hashes@);
    hashes
}

/// The cumulative hashes of the blocks of a prompt.
pub open spec fn prompt_chain(prompt: Seq<char>) -> Seq<BlockHash> {
    cumulative(block_hashes(text::tokens(prompt)))
}

/// The cumulative hashes of the blocks of a prompt.
pub fn prompt_to_cumulative_hashes(prompt: &str) -> (hashes: Vec<BlockHash>)
    ensures
        hashes@ == prompt_chain(prompt@),
{
    let block_hashes = prompt_to_block_hashes(prompt);
    cumulative_hashes_from_blocks(&block_hashes)
}

/// What names a block of a synthetic chain.
pub open spec fn synthetic_label(chain_id: nat, block: nat) -> Seq<char> {
    "chain="@ + text::decimal(chain_id) + ":block="@ + text::decimal(block)
}

/// The hashes of the first `blocks` blocks of a synthetic chain, each by itself.
pub open spec fn synthetic_blocks(chain_id: nat, blocks: nat) -> Seq<BlockHash> {
    Seq::new(blocks, |i: int| fnv1a(encode_utf8(synthetic_label(chain_id, i as nat))))
}

/// The cumulative hashes of the first `blocks` blocks of a synthetic chain.
pub open spec fn synthetic_chain(chain_id: nat, blocks: nat) -> Seq<BlockHash> {
    chained(FNV_OFFSET, synthetic_blocks(chain_id, blocks))
}

/// There is one cumulative hash for each block.
pub proof fn lemma_chained_len(seed: BlockHash, hashes: Seq<BlockHash>)
    ensures
        chained(seed, hashes).len() == hashes.len(),
    decreases hashes.len(),
{
    if hashes.len() > 0 {
        lemma_chained_len(seed, hashes.drop_last());
    }
}

/// A synthetic chain of `blocks` blocks has that many hashes.
pub proof fn lemma_synthetic_chain_len(chain_id: nat, blocks: nat)
    ensures
        synthetic_chain(chain_id, blocks).len() == blocks,
{
    lemma_chained_len(FNV_OFFSET, synthetic_blocks(chain_id, blocks));
}

/// The cumulative hashes of the first `blocks` blocks of a synthetic chain.
pub fn make_synthetic_chain(chain_id: u64, blocks: usize) -> (hashes: Vec<BlockHash>)
    ensures
        hashes@ == synthetic_chain(chain_id as nat, blocks as nat),
        hashes@.len() == blocks,
{
    let mut out: Vec<BlockHash> = Vec::with_capacity(blocks);
    let mut prev: BlockHash = FNV_OFFSET;
    let mut i: usize = 0;
    while i < blocks
        invariant
            i <= blocks,
            out@.len() == i,
            out@ == synthetic_chain(chain_id as nat, i as nat),
            prev == if i == 0 {
                FNV_OFFSET
            } else {
                out@[i - 1]
            },
        decreases blocks - i,
    {
        let mut label: String = String::new();
        label.append("chain=");
        text::push_decimal(&mut label, chain_id);
        label.append(":block=");
        text::push_decimal(&mut label, i as u64);
        assert(label@ =~= synthetic_label(chain_id as nat, i as nat));
        let local: BlockHash = fnv1a64(label.as_str().as_bytes());
        let hash: BlockHash = combine_cumulative(prev, local);
        out.push(hash);
        prev = hash;
        proof {
            let longer = synthetic_blocks(chain_id as nat, (i + 1) as nat);
            assert(longer.drop_last() =~= synthetic_blocks(chain_id as nat, i as nat));
            assert(longer.last() == local);
        }
        i = i + 1;
    }
    out
}

/// A cumulative hash covers the blocks up to its own: what follows does not matter to it.
pub proof fn lemma_chained_prefix(seed: BlockHash, hashes: Seq<BlockHash>, count: int)
    requires
        0 <= count <= hashes.len(),
    ensures
        chained(seed, hashes).take(count) == chained(seed, hashes.take(count)),
    decreases hashes.len(),
{
    lemma_chained_len(seed, hashes);
    lemma_chained_len(seed, hashes.take(count));
    if count == hashes.len() {
        assert(hashes.take(count) =~= hashes);
        assert(chained(seed, hashes).take(count) =~= chained(seed, hashes));
    } else {
        let before = hashes.drop_last();
        lemma_chained_prefix(seed, before, count);
        lemma_chained_len(seed, before);
        assert(before.take(count) =~= hashes.take(count));
        assert(chained(seed, hashes).take(count) =~= chained(seed, before).take(count));
    }
}

/// A shorter synthetic chain is the beginning of a longer one with the same id.
pub proof fn lemma_synthetic_chain_prefix(chain_id: nat, few: nat, blocks: nat)
    requires
        few <= blocks,
    ensures
        synthetic_chain(chain_id, blocks).take(few as int) == synthetic_chain(chain_id, few),
{
    let hashes = synthetic_blocks(chain_id, blocks);
    assert(hashes.take(few as int) =~= synthetic_blocks(chain_id, few));
    lemma_chained_prefix(FNV_OFFSET, hashes, few as int);
}

/// A prompt has one hash for each four tokens and one for those that are left, and no more hashes
/// than characters.
pub proof fn lemma_prompt_chain_len(prompt: Seq<char>)
    ensures
        prompt_chain(prompt).len() == block_count(text::tokens(prompt).len()),
        prompt_chain(prompt).len() <= prompt.len(),
{
    lemma_chained_len(0, block_hashes(text::tokens(prompt)));
    text::lemma_tokens_at_most_chars(prompt);
}

/// Prompts that share the tokens of their first blocks share the hashes of these blocks, whatever
/// follows.
pub proof fn lemma_shared_tokens_share_hashes(a: Seq<char>, b: Seq<char>, blocks: nat)
    requires
        blocks * BLOCK_SIZE <= text::tokens(a).len(),
        blocks * BLOCK_SIZE <= text::tokens(b).len(),
        text::tokens(a).take(blocks * BLOCK_SIZE) == text::tokens(b).take(blocks * BLOCK_SIZE),
    ensures
        blocks <= prompt_chain(a).len(),
        blocks <= prompt_chain(b).len(),
        prompt_chain(a).take(blocks as int) == prompt_chain(b).take(blocks as int),
{
    let a_tokens = text::tokens(a);
    let b_tokens = text::tokens(b);
    let a_hashes = block_hashes(a_tokens);
    let b_hashes = block_hashes(b_tokens);
    let shared = blocks * BLOCK_SIZE;
    lemma_prompt_chain_len(a);
    lemma_prompt_chain_len(b);
    assert forall|i: int| 0 <= i < blocks implies #[trigger] a_hashes[i] == b_hashes[i] by {
        assert(block_tokens(a_tokens, i) =~= a_tokens.take(shared).subrange(
            i * BLOCK_SIZE,
            i * BLOCK_SIZE + BLOCK_SIZE,
        ));
        assert(block_tokens(b_tokens, i) =~= b_tokens.take(shared).subrange(
            i * BLOCK_SIZE,
            i * BLOCK_SIZE + BLOCK_SIZE,
        ));
    }
    assert(a_hashes.take(blocks as int) =~= b_hashes.take(blocks as int));
    lemma_chained_prefix(0, a_hashes, blocks as int);
    lemma_chained_prefix(0, b_hashes, blocks as int);
}

/// A prompt of whole blocks keeps its hashes when more text is added behind some white space.
pub proof fn lemma_longer_prompt_keeps_hashes(prompt: Seq<char>, space: char, more: Seq<char>)
    requires
        text::is_white_space(space),
        text::tokens(prompt).len() % BLOCK_SIZE as nat == 0,
    ensures
        prompt_chain(prompt.push(space) + more).take(prompt_chain(prompt).len() as int)
            == prompt_chain(prompt),
{
    let longer = prompt.push(space) + more;
    let tokens = text::tokens(prompt);
    let blocks = block_count(tokens.len());
    lemma_prompt_chain_len(prompt);
    text::lemma_tokens_of_longer_text(prompt, space, more);
    assert(blocks * BLOCK_SIZE == tokens.len());
    assert(text::tokens(longer).take(tokens.len() as int) =~= tokens);
    assert(tokens.take(tokens.len() as int) =~= tokens);
    lemma_shared_tokens_share_hashes(longer, prompt, blocks);
    assert(prompt_chain(prompt).take(blocks as int) =~= prompt_chain(prompt));
}

/// The byte that ends a token is in no UTF-8 text.
proof fn lemma_no_token_end(token: Seq<char>, i: int)
    requires
        0 <= i < encode_utf8(token).len(),
    ensures
        encode_utf8(token)[i] != TOKEN_END,
{
    let bytes = encode_utf8(token);
    encode_utf8_valid_utf8(token);
    is_char_boundary_iff_is_leading_byte(bytes, i);
    is_char_boundary_iff_not_is_continuation_byte(bytes, i);
}

/// Different blocks have different bytes to be hashed.
pub proof fn lemma_block_bytes_tell_blocks_apart(a: Seq<Seq<char>>, b: Seq<Seq<char>>)
    requires
        block_bytes(a) == block_bytes(b),
    ensures
        a == b,
    decreases a.len(),
{
    let bytes = block_bytes(a);
    if a.len() == 0 || b.len() == 0 {
        assert(a =~= b);
    } else {
        let a_before = block_bytes(a.drop_last());
        let b_before = block_bytes(b.drop_last());
        let a_last = encode_utf8(a.last());
        let b_last = encode_utf8(b.last());
        assert(a_before + a_last =~= bytes.drop_last());
        assert(b_before + b_last =~= bytes.drop_last());
        if a_before.len() < b_before.len() {
            let i = b_before.len() - 1;
            lemma_no_token_end(a.last(), i - a_before.len());
            assert(bytes[i] == a_last[i - a_before.len()]);
            assert(bytes[i] == b_before[i]);
            assert(b_before.last() == TOKEN_END);
        } else if b_before.len() < a_before.len() {
            let i = a_before.len() - 1;
            lemma_no_token_end(b.last(), i - b_before.len());
            assert(bytes[i] == b_last[i - b_before.len()]);
            assert(bytes[i] == a_before[i]);
            assert(a_before.last() == TOKEN_END);
        } else {
            assert(a_before =~= bytes.take(a_before.len() as int));
            assert(b_before =~= bytes.take(a_before.len() as int));
            assert(a_last =~= bytes.drop_last().skip(a_before.len() as int));
            assert(b_last =~= bytes.drop_last().skip(a_before.len() as int));
            lemma_block_bytes_tell_blocks_apart(a.drop_last(), b.drop_last());
            encode_utf8_decode_utf8(a.last());
            encode_utf8_decode_utf8(b.last());
            assert(a =~= a.drop_last().push(a.last()));
            assert(b =~= b.drop_last().push(b.last()));
        }
    }
}

/// Numbers with the same bytes have the same byte in each place.
proof fn lemma_same_byte(a: u64, b: u64, i: int)
    requires
        little_endian(a) == little_endian(b),
        0 <= i < 8,
    ensures
        (a >> ((8 * i) as u64)) & 0xff == (b >> ((8 * i) as u64)) & 0xff,
{
    let shift = (8 * i) as u64;
    let a_byte = (a >> shift) & 0xff;
    let b_byte = (b >> shift) & 0xff;
    assert((a >> shift) & 0xff <= 0xff) by (bit_vector);
    assert((b >> shift) & 0xff <= 0xff) by (bit_vector);
    assert(little_endian(a)[i] == a_byte as u8);
    assert(little_endian(b)[i] == b_byte as u8);
}

/// Different numbers have different bytes.
pub proof fn lemma_little_endian_tells_numbers_apart(a: u64, b: u64)
    requires
        little_endian(a) == little_endian(b),
    ensures
        a == b,
{
    lemma_same_byte(a, b, 0);
    lemma_same_byte(a, b, 1);
    lemma_same_byte(a, b, 2);
    lemma_same_byte(a, b, 3);
    lemma_same_byte(a, b, 4);
    lemma_same_byte(a, b, 5);
    lemma_same_byte(a, b, 6);
    lemma_same_byte(a, b, 7);
    assert(a == b) by (bit_vector)
        requires
            (a >> 0u64) & 0xff == (b >> 0u64) & 0xff,
            (a >> 8u64) & 0xff == (b >> 8u64) & 0xff,
            (a >> 16u64) & 0xff == (b >> 16u64) & 0xff,
            (a >> 24u64) & 0xff == (b >> 24u64) & 0xff,
            (a >> 32u64) & 0xff == (b >> 32u64) & 0xff,
            (a >> 40u64) & 0xff == (b >> 40u64) & 0xff,
            (a >> 48u64) & 0xff == (b >> 48u64) & 0xff,
            (a >> 56u64) & 0xff == (b >> 56u64) & 0xff,
    ;
}

/// The bytes that are hashed for a cumulative hash tell both of its parts apart.
pub proof fn lemma_combined_bytes_tell_parts_apart(
    a_prev: BlockHash,
    a_hash: BlockHash,
    b_prev: BlockHash,
    b_hash: BlockHash,
)
    requires
        little_endian(a_prev) + little_endian(a_hash) == little_endian(b_prev) + little_endian(
            b_hash,
        ),
    ensures
        a_prev == b_prev,
        a_hash == b_hash,
{
    let bytes = little_endian(a_prev) + little_endian(a_hash);
    assert(little_endian(a_prev) =~= bytes.take(8));
    assert(little_endian(b_prev) =~= bytes.take(8));
    assert(little_endian(a_hash) =~= bytes.skip(8));
    assert(little_endian(b_hash) =~= bytes.skip(8));
    lemma_little_endian_tells_numbers_apart(a_prev, b_prev);
    lemma_little_endian_tells_numbers_apart(a_hash, b_hash);
}

/// Whether two different byte sequences have the same hash.
pub open spec fn collide(a: Seq<u8>, b: Seq<u8>) -> bool {
    a != b && fnv1a(a) == fnv1a(b)
}

/// The bytes that are hashed for block `i` of a prompt.
pub open spec fn prompt_block_bytes(prompt: Seq<char>, i: int) -> Seq<u8> {
    block_bytes(block_tokens(text::tokens(prompt), i))
}

/// The bytes that are hashed for the cumulative hash of block `i` of a prompt.
pub open spec fn prompt_link_bytes(prompt: Seq<char>, i: int) -> Seq<u8> {
    let prev = if i == 0 {
        0
    } else {
        prompt_chain(prompt)[i - 1]
    };
    little_endian(prev) + little_endian(block_hashes(text::tokens(prompt))[i])
}

/// Each cumulative hash is made of the one before it and of the hash of its block.
proof fn lemma_chained_link(seed: BlockHash, hashes: Seq<BlockHash>, i: int)
    requires
        0 <= i < hashes.len(),
    ensures
        chained(seed, hashes)[i] == combined(
            if i == 0 {
                seed
            } else {
                chained(seed, hashes)[i - 1]
            },
            hashes[i],
        ),
{
    let upto = hashes.take(i + 1);
    lemma_chained_len(seed, hashes);
    lemma_chained_len(seed, upto.drop_last());
    lemma_chained_prefix(seed, hashes, i + 1);
    lemma_chained_prefix(seed, hashes, i);
    assert(upto.drop_last() =~= hashes.take(i));
    assert(chained(seed, upto)[i] == chained(seed, hashes).take(i + 1)[i]);
    if i > 0 {
        assert(chained(seed, hashes.take(i))[i - 1] == chained(seed, hashes).take(i)[i - 1]);
    }
}

/// Where a cumulative hash of one prompt is one of another prompt too, both prompts have the same
/// tokens in all blocks up to there, unless two hashes of them collide or a cumulative hash is
/// the zero that the first block starts from.
pub proof fn lemma_match_means_same_prefix(a: Seq<char>, b: Seq<char>, i: int, j: int)
    requires
        0 <= i < prompt_chain(a).len(),
        0 <= j < prompt_chain(b).len(),
        prompt_chain(a)[i] == prompt_chain(b)[j],
        forall|k: int, l: int|
            0 <= k <= i && 0 <= l <= j ==> !collide(
                #[trigger] prompt_link_bytes(a, k),
                #[trigger] prompt_link_bytes(b, l),
            ),
        forall|k: int, l: int|
            0 <= k <= i && 0 <= l <= j ==> !collide(
                #[trigger] prompt_block_bytes(a, k),
                #[trigger] prompt_block_bytes(b, l),
            ),
        forall|k: int| 0 <= k < i ==> #[trigger] prompt_chain(a)[k] != 0,
        forall|l: int| 0 <= l < j ==> #[trigger] prompt_chain(b)[l] != 0,
    ensures
        i == j,
        forall|k: int|
            0 <= k <= i ==> #[trigger] block_tokens(text::tokens(a), k) == block_tokens(
                text::tokens(b),
                k,
            ),
    decreases i,
{
    let a_hashes = block_hashes(text::tokens(a));
    let b_hashes = block_hashes(text::tokens(b));
    let a_prev = if i == 0 {
        0
    } else {
        prompt_chain(a)[i - 1]
    };
    let b_prev = if j == 0 {
        0
    } else {
        prompt_chain(b)[j - 1]
    };
    lemma_chained_len(0, a_hashes);
    lemma_chained_len(0, b_hashes);
    lemma_chained_link(0, a_hashes, i);
    lemma_chained_link(0, b_hashes, j);
    assert(prompt_link_bytes(a, i) == prompt_link_bytes(b, j));
    lemma_combined_bytes_tell_parts_apart(a_prev, a_hashes[i], b_prev, b_hashes[j]);
    assert(prompt_block_bytes(a, i) == prompt_block_bytes(b, j));
    lemma_block_bytes_tell_blocks_apart(
        block_tokens(text::tokens(a), i),
        block_tokens(text::tokens(b), j),
    );
    if i > 0 && j > 0 {
        lemma_match_means_same_prefix(a, b, i - 1, j - 1);
    }
}

/// The hash of no bytes is the offset basis, and every byte counts, however many stand before it:
/// it is taken in by exclusive or and a product with the prime.
pub proof fn lemma_fnv1a_takes_in_every_byte(bytes: Seq<u8>, byte: u8)
    ensures
        fnv1a(Seq::<u8>::empty()) == 14695981039346656037,
        fnv1a(bytes.push(byte)) == ((fnv1a(bytes) ^ (byte as u64)) * 1099511628211)
            % 0x1_0000_0000_0000_0000,
{
    assert(bytes.push(byte).drop_last() =~= bytes);
}

/// The prime can be divided by again: different numbers have different products with it.
proof fn lemma_prime_keeps_numbers_apart(a: u64, b: u64)
    requires
        (a * 1099511628211) % 0x1_0000_0000_0000_0000 == (b * 1099511628211)
            % 0x1_0000_0000_0000_0000,
    ensures
        a == b,
{
    lemma_inverse_of_prime(a);
    lemma_inverse_of_prime(b);
}

proof fn lemma_inverse_of_prime(a: u64)
    ensures
        (((a * 1099511628211) % 0x1_0000_0000_0000_0000) * 14886173955864302971)
            % 0x1_0000_0000_0000_0000 == a,
{
    let size: int = 0x1_0000_0000_0000_0000;
    let prime: int = 1099511628211;
    let inverse: int = 14886173955864302971;
    lemma_mul_mod_noop_left(a * prime, inverse, size);
    assert(prime * inverse == 887285111055 * size + 1);
    assert((a * prime) * inverse == size * (a * 887285111055) + a) by (nonlinear_arith)
        requires
            prime * inverse == 887285111055 * size + 1,
    ;
    lemma_mod_multiples_vanish(a * 887285111055, a as int, size);
    lemma_small_mod(a as nat, size as nat);
}

/// What follows keeps hashes apart that differ, and does nothing else to hashes that do not.
pub proof fn lemma_fnv1a_of_same_ending(a: Seq<u8>, b: Seq<u8>, ending: Seq<u8>)
    ensures
        fnv1a(a + ending) == fnv1a(b + ending) <==> fnv1a(a) == fnv1a(b),
    decreases ending.len(),
{
    if ending.len() == 0 {
        assert(a + ending =~= a);
        assert(b + ending =~= b);
    } else {
        let before = ending.drop_last();
        let byte = ending.last();
        let a_hash = fnv1a(a + before);
        let b_hash = fnv1a(b + before);
        let low = byte as u64;
        lemma_fnv1a_of_same_ending(a, b, before);
        assert(a + ending =~= (a + before).push(byte));
        assert(b + ending =~= (b + before).push(byte));
        lemma_fnv1a_takes_in_every_byte(a + before, byte);
        lemma_fnv1a_takes_in_every_byte(b + before, byte);
        if fnv1a(a + ending) == fnv1a(b + ending) {
            lemma_prime_keeps_numbers_apart(a_hash ^ low, b_hash ^ low);
            assert(a_hash == b_hash) by (bit_vector)
                requires
                    a_hash ^ low == b_hash ^ low,
            ;
        }
    }
}

/// Different bytes at the end of the same bytes never have the same hash.
pub proof fn lemma_fnv1a_tells_last_byte(bytes: Seq<u8>, a: u8, b: u8)
    requires
        a != b,
    ensures
        fnv1a(bytes.push(a)) != fnv1a(bytes.push(b)),
{
    let hash = fnv1a(bytes);
    let a_low = a as u64;
    let b_low = b as u64;
    lemma_fnv1a_takes_in_every_byte(bytes, a);
    lemma_fnv1a_takes_in_every_byte(bytes, b);
    if fnv1a(bytes.push(a)) == fnv1a(bytes.push(b)) {
        lemma_prime_keeps_numbers_apart(hash ^ a_low, hash ^ b_low);
        assert(a_low == b_low) by (bit_vector)
            requires
                hash ^ a_low == hash ^ b_low,
        ;
    }
}

/// Bytes that differ in one place only never have the same hash.
pub proof fn lemma_fnv1a_tells_one_byte(a: Seq<u8>, b: Seq<u8>, i: int)
    requires
        a.len() == b.len(),
        0 <= i < a.len(),
        a[i] != b[i],
        forall|k: int| 0 <= k < a.len() && k != i ==> #[trigger] a[k] == b[k],
    ensures
        fnv1a(a) != fnv1a(b),
{
    let head = a.take(i);
    let ending = a.skip(i + 1);
    lemma_fnv1a_tells_last_byte(head, a[i], b[i]);
    lemma_fnv1a_of_same_ending(head.push(a[i]), head.push(b[i]), ending);
    assert(a =~= head.push(a[i]) + ending);
    assert(b =~= head.push(b[i]) + ending);
}

/// The bytes of a block are those of its tokens one after the other: each in UTF-8, with a byte
/// behind it that no text has.
pub proof fn lemma_block_bytes_by_token(
    a: Seq<Seq<char>>,
    b: Seq<Seq<char>>,
    token: Seq<char>,
)
    ensures
        block_bytes(Seq::<Seq<char>>::empty()) == Seq::<u8>::empty(),
        block_bytes(seq![token]) == encode_utf8(token).push(0xff),
        block_bytes(a + b) == block_bytes(a) + block_bytes(b),
    decreases b.len(),
{
    reveal_with_fuel(block_bytes, 2);
    assert(seq![token].drop_last() =~= Seq::<Seq<char>>::empty());
    assert(Seq::<u8>::empty() + encode_utf8(token) =~= encode_utf8(token));
    if b.len() == 0 {
        assert(a + b =~= a);
        assert(block_bytes(a) + block_bytes(b) =~= block_bytes(a));
    } else {
        lemma_block_bytes_by_token(a, b.drop_last(), token);
        assert((a + b).drop_last() =~= a + b.drop_last());
        assert(block_bytes(a + b) =~= block_bytes(a) + block_bytes(b));
    }
}

/// The number that eight bytes stand for, the lowest first.
pub open spec fn number_of_bytes(bytes: Seq<u8>) -> int {
    bytes[0] + 0x100 * bytes[1] + 0x1_0000 * bytes[2] + 0x100_0000 * bytes[3] + 0x1_0000_0000
        * bytes[4] + 0x100_0000_0000 * bytes[5] + 0x1_0000_0000_0000 * bytes[6]
        + 0x100_0000_0000_0000 * bytes[7]
}

/// The bytes of a number are those eight that stand for it.
pub proof fn lemma_little_endian(value: u64, bytes: Seq<u8>)
    requires
        bytes.len() == 8,
    ensures
        number_of_bytes(bytes) == value <==> bytes == little_endian(value),
{
    lemma_bytes_stand_for_number(value);
    if number_of_bytes(bytes) == value {
        lemma_same_bytes(bytes, little_endian(value));
    }
}

/// Eight bytes that stand for the same number are the same.
proof fn lemma_same_bytes(a: Seq<u8>, b: Seq<u8>)
    requires
        a.len() == 8,
        b.len() == 8,
        number_of_bytes(a) == number_of_bytes(b),
    ensures
        a == b,
{
    let a6 = a[6] + 0x100 * a[7];
    let a5 = a[5] + 0x100 * a6;
    let a4 = a[4] + 0x100 * a5;
    let a3 = a[3] + 0x100 * a4;
    let a2 = a[2] + 0x100 * a3;
    let a1 = a[1] + 0x100 * a2;
    let b6 = b[6] + 0x100 * b[7];
    let b5 = b[5] + 0x100 * b6;
    let b4 = b[4] + 0x100 * b5;
    let b3 = b[3] + 0x100 * b4;
    let b2 = b[2] + 0x100 * b3;
    let b1 = b[1] + 0x100 * b2;
    lemma_same_low_byte(a[0], a1, b[0], b1);
    lemma_same_low_byte(a[1], a2, b[1], b2);
    lemma_same_low_byte(a[2], a3, b[2], b3);
    lemma_same_low_byte(a[3], a4, b[3], b4);
    lemma_same_low_byte(a[4], a5, b[4], b5);
    lemma_same_low_byte(a[5], a6, b[5], b6);
    lemma_same_low_byte(a[6], a[7] as int, b[6], b[7] as int);
    assert(a =~= b);
}

proof fn lemma_same_low_byte(a: u8, a_rest: int, b: u8, b_rest: int)
    requires
        a + 0x100 * a_rest == b + 0x100 * b_rest,
    ensures
        a == b,
        a_rest == b_rest,
{
}

proof fn lemma_bytes_stand_for_number(value: u64)
    ensures
        little_endian(value).len() == 8,
        number_of_bytes(little_endian(value)) == value,
{
    let b0 = (value >> 0u64) & 0xff;
    let b1 = (value >> 8u64) & 0xff;
    let b2 = (value >> 16u64) & 0xff;
    let b3 = (value >> 24u64) & 0xff;
    let b4 = (value >> 32u64) & 0xff;
    let b5 = (value >> 40u64) & 0xff;
    let b6 = (value >> 48u64) & 0xff;
    let b7 = (value >> 56u64) & 0xff;
    assert(b0 <= 0xff && b1 <= 0xff && b2 <= 0xff && b3 <= 0xff && b4 <= 0xff && b5 <= 0xff && b6
        <= 0xff && b7 <= 0xff && value == b0 + 0x100 * b1 + 0x1_0000 * b2 + 0x100_0000 * b3
        + 0x1_0000_0000 * b4 + 0x100_0000_0000 * b5 + 0x1_0000_0000_0000 * b6
        + 0x100_0000_0000_0000 * b7) by (bit_vector)
        requires
            b0 == (value >> 0u64) & 0xff,
            b1 == (value >> 8u64) & 0xff,
            b2 == (value >> 16u64) & 0xff,
            b3 == (value >> 24u64) & 0xff,
            b4 == (value >> 32u64) & 0xff,
            b5 == (value >> 40u64) & 0xff,
            b6 == (value >> 48u64) & 0xff,
            b7 == (value >> 56u64) & 0xff,
    ;
}

/// A cumulative hash is the hash of sixteen bytes: eight that stand for the hash before it, and
/// eight that stand for the hash of its block.
pub proof fn lemma_combined_hashes_both_numbers(
    prev: BlockHash,
    block_hash: BlockHash,
    bytes: Seq<u8>,
)
    requires
        bytes.len() == 16,
        number_of_bytes(bytes.take(8)) == prev,
        number_of_bytes(bytes.skip(8)) == block_hash,
    ensures
        combined(prev, block_hash) == fnv1a(bytes),
{
    lemma_little_endian(prev, bytes.take(8));
    lemma_little_endian(block_hash, bytes.skip(8));
    assert(bytes =~= bytes.take(8) + bytes.skip(8));
}

/// The blocks are the tokens in fours: each token is in one block, at its place, all blocks but the
/// last have four tokens, and the last one has from one to four.
pub proof fn lemma_blocks_of_four(tokens: Seq<Seq<char>>)
    ensures
        4 * (block_count(tokens.len()) - 1) < tokens.len() <= 4 * block_count(tokens.len()),
        forall|k: int|
            0 <= k < tokens.len() ==> {
                &&& k / 4 < block_count(tokens.len())
                &&& k % 4 < block_tokens(tokens, k / 4).len()
                &&& block_tokens(tokens, k / 4)[k % 4] == #[trigger] tokens[k]
            },
        forall|i: int|
            0 <= i < block_count(tokens.len()) ==> {
                &&& 1 <= (#[trigger] block_tokens(tokens, i)).len() <= 4
                &&& i + 1 < block_count(tokens.len()) ==> block_tokens(tokens, i).len() == 4
            },
{
}

/// The hash of each block is that of the bytes of its four tokens, or of those that are left.
pub proof fn lemma_block_hashes(tokens: Seq<Seq<char>>, i: int, block: Seq<Seq<char>>)
    requires
        0 <= 4 * i < tokens.len(),
        block.len() == 4 || (block.len() < 4 && 4 * i + block.len() == tokens.len()),
        4 * i + block.len() <= tokens.len(),
        forall|k: int| 0 <= k < block.len() ==> #[trigger] block[k] == tokens[4 * i + k],
    ensures
        i < block_hashes(tokens).len(),
        4 * (block_hashes(tokens).len() - 1) < tokens.len() <= 4 * block_hashes(tokens).len(),
        block_hashes(tokens)[i] == fnv1a(block_bytes(block)),
{
    assert(block_tokens(tokens, i) =~= block);
}

/// The first cumulative hash of a prompt is made of zero and the hash of its first block, and each
/// other one of the cumulative hash before it and the hash of its block.
pub proof fn lemma_prompt_chain_links(prompt: Seq<char>, i: int)
    requires
        0 <= i < block_hashes(text::tokens(prompt)).len(),
    ensures
        prompt_chain(prompt).len() == block_hashes(text::tokens(prompt)).len(),
        i == 0 ==> prompt_chain(prompt)[i] == combined(0, block_hashes(text::tokens(prompt))[i]),
        i > 0 ==> prompt_chain(prompt)[i] == combined(
            prompt_chain(prompt)[i - 1],
            block_hashes(text::tokens(prompt))[i],
        ),
{
    lemma_chained_len(0, block_hashes(text::tokens(prompt)));
    lemma_chained_link(0, block_hashes(text::tokens(prompt)), i);
}

/// The first cumulative hash of a synthetic chain is made of the offset basis and the hash of its
/// label, and each other one of the cumulative hash before it and the hash of its label. A label
/// names the chain and the block in decimal, whatever digits without leading zeros stand for them.
pub proof fn lemma_synthetic_chain_links(
    chain_id: nat,
    blocks: nat,
    i: int,
    chain_digits: Seq<char>,
    block_digits: Seq<char>,
)
    requires
        0 <= i < blocks,
        chain_digits.len() > 0,
        chain_digits.len() > 1 ==> chain_digits[0] != '0',
        forall|k: int| 0 <= k < chain_digits.len() ==> '0' <= #[trigger] chain_digits[k] <= '9',
        text::digits_value(chain_digits) == chain_id,
        block_digits.len() > 0,
        block_digits.len() > 1 ==> block_digits[0] != '0',
        forall|k: int| 0 <= k < block_digits.len() ==> '0' <= #[trigger] block_digits[k] <= '9',
        text::digits_value(block_digits) == i,
    ensures
        ({
            let label = "chain="@ + chain_digits + ":block="@ + block_digits;
            let local = fnv1a(encode_utf8(label));
            let chain = synthetic_chain(chain_id, blocks);
            &&& chain.len() == blocks
            &&& i == 0 ==> chain[i] == combined(14695981039346656037, local)
            &&& i > 0 ==> chain[i] == combined(chain[i - 1], local)
        }),
{
    lemma_synthetic_chain_len(chain_id, blocks);
    lemma_chained_link(FNV_OFFSET, synthetic_blocks(chain_id, blocks), i);
    text::lemma_decimal_is_unique(chain_digits);
    text::lemma_decimal_is_unique(block_digits);
}

/// The hash of a block of any number of tokens is that of all its bytes.
pub proof fn lemma_block_hash(tokens: Seq<Seq<char>>, token: Seq<char>)
    ensures
        block_hash(Seq::<Seq<char>>::empty()) == 14695981039346656037,
        block_hash(tokens.push(token)) == fnv1a(
            block_bytes(tokens) + encode_utf8(token) + seq![0xffu8],
        ),
{
    assert(tokens.push(token).drop_last() =~= tokens);
    assert((block_bytes(tokens) + encode_utf8(token)).push(0xff) =~= block_bytes(tokens)
        + encode_utf8(token) + seq![0xffu8]);
}

/// Of the cumulative hashes of any blocks the first is made of zero and the hash of the first
/// block, and each other one of the cumulative hash before it and the hash of its block.
pub proof fn lemma_cumulative_links(hashes: Seq<BlockHash>, i: int)
    requires
        0 <= i < hashes.len(),
    ensures
        cumulative(hashes).len() == hashes.len(),
        i == 0 ==> cumulative(hashes)[i] == combined(0, hashes[i]),
        i > 0 ==> cumulative(hashes)[i] == combined(cumulative(hashes)[i - 1], hashes[i]),
{
    lemma_chained_len(0, hashes);
    lemma_chained_link(0, hashes, i);
}

} // verus!
