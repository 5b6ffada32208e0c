//! Block-wise work on a byte stream: cutting the input into blocks of a fixed
//! size, and joining the processed blocks in the order of the input.

use crate::fragment::{payloads, Fragment};
use crate::moves::reversed;
use crate::reassembler::{in_sequence_order, sort_by_sequence};
use vstd::arithmetic::div_mod::{lemma_fundamental_div_mod, lemma_fundamental_div_mod_converse};
use vstd::prelude::*;
use vstd::seq_lib::to_multiset_contains;

verus! {

/// The block size of the compression workload, in bytes.
pub const BLOCK_SIZE: usize = 900000;

/// One block on its way through the pipeline: a byte buffer, the place of the
/// block in the input, and the number of bytes of the buffer that count.
#[derive(Debug, PartialEq, Eq)]
pub struct Buffer {
    pub buffer: Vec<u8>,
    pub order: usize,
    pub size: usize,
}

impl Buffer {
    /// A block with the given buffer, order and count of valid bytes.
    pub fn new(buffer: Vec<u8>, order: usize, size: usize) -> (block: Self)
        ensures
            block.buffer == buffer,
            block.order == order,
            block.size == size,
    {
        Self { buffer, order, size }
    }
}

/// The number of blocks of `block_size` bytes that cover `len` bytes; the
/// last block may be shorter.
pub open spec fn block_count(len: nat, block_size: nat) -> nat {
    if block_size == 0 {
        0
    } else {
        ((len + block_size - 1) / block_size as int) as nat
    }
}

/// Where the first `count` blocks end: after `count * block_size` bytes, or
/// at the end of the input where that comes first.
pub open spec fn blocks_end(len: nat, block_size: nat, count: nat) -> int {
    if count * block_size <= len {
        (count * block_size) as int
    } else {
        len as int
    }
}

/// The bytes of block `index`.
pub open spec fn block_bytes(input: Seq<u8>, block_size: nat, index: nat) -> Seq<u8> {
    input.subrange((index * block_size) as int, blocks_end(input.len(), block_size, index + 1))
}

/// The bytes of a block that count: the first `size` bytes of its buffer.
pub open spec fn valid_bytes(block: Buffer) -> Seq<u8> {
    block.buffer@.subrange(0, block.size as int)
}

/// The valid bytes of the blocks, one block after the other.
pub open spec fn joined(blocks: Seq<Buffer>) -> Seq<u8>
    decreases blocks.len(),
{
    if blocks.len() == 0 {
        Seq::empty()
    } else {
        joined(blocks.drop_last()) + valid_bytes(blocks.last())
    }
}

/// Every block counts no more bytes than its buffer holds.
pub open spec fn sizes_fit(blocks: Seq<Buffer>) -> bool {
    forall|i: int| 0 <= i < blocks.len() ==> blocks[i].size <= blocks[i].buffer@.len()
}

/// The blocks as fragments, each numbered by its `order`.
pub open spec fn as_fragments(blocks: Seq<Buffer>) -> Seq<Fragment<Buffer>> {
    Seq::new(blocks.len(), |i: int| Fragment { sequence: blocks[i].order as u64, payload: blocks[i] })
}

/// Block counts of a whole number of blocks, and of one short block more.
proof fn lemma_block_count(full: nat, rest: nat, block_size: nat)
    requires
        block_size > 0,
        rest <= block_size,
    ensures
        rest == 0 ==> block_count(full * block_size + rest, block_size) == full,
        rest > 0 ==> block_count(full * block_size + rest, block_size) == full + 1,
{
    let b = block_size as int;
    if rest == 0 {
        lemma_fundamental_div_mod_converse(full * block_size + b - 1, b, full as int, b - 1);
    } else {
        assert(full * block_size + rest + b - 1 == (full + 1) * b + (rest - 1)) by (nonlinear_arith)
            requires
                b == block_size,
        ;
        lemma_fundamental_div_mod_converse(
            full * block_size + rest + b - 1,
            b,
            full as int + 1,
            rest as int - 1,
        );
    }
}

/// Appends the bytes `source[from..to]` to `target`.
fn append_bytes(target: &mut Vec<u8>, source: &Vec<u8>, from: usize, to: usize)
    requires
        from <= to <= source.len(),
    ensures
        final(target)@ == old(target)@ + source@.subrange(from as int, to as int),
{
    let mut at: usize = from;
    while at < to
        invariant
            from <= at <= to <= source.len(),
            target@ == old(target)@ + source@.subrange(from as int, at as int),
        decreases to - at,
    {
        target.push(source[at]);
        at = at + 1;
        assert(target@ =~= old(target)@ + source@.subrange(from as int, at as int));
    }
}

/// The chunking policy of a source that reads a byte stream: block `i` holds
/// the bytes from `i * block_size` up to the next block or the end of the
/// input, carries the order `i`, and counts no bytes yet. A block size of
/// zero cuts nothing: it is refused unless the input is empty.
#[verifier::spinoff_prover]
pub fn slice_blocks(input: &Vec<u8>, block_size: usize) -> (blocks: Option<Vec<Buffer>>)
    ensures
        (block_size == 0 && input.len() > 0) <==> blocks is None,
        blocks matches Some(list) ==> {
            &&& block_size > 0 ==> list.len() == block_count(input@.len(), block_size as nat)
            &&& block_size == 0 ==> list.len() == 0
            &&& forall|i: int|
                0 <= i < list.len() ==> (#[trigger] list[i]).buffer@ == block_bytes(
                    input@,
                    block_size as nat,
                    i as nat,
                ) && list[i].order == i && list[i].size == 0
        },
{
    let mut blocks: Vec<Buffer> = Vec::new();
    if block_size == 0 {
        if input.len() > 0 {
            return None;
        }
        return Some(blocks);
    }
    let mut pos_end: usize = 0;
    let mut bytes_left: usize = input.len();
    let mut order: usize = 0;
    proof {
        lemma_block_count(0, 0, block_size as nat);
    }
    while bytes_left > 0
        invariant
            block_size > 0,
            pos_end + bytes_left == input.len(),
            blocks.len() == order,
            bytes_left > 0 ==> pos_end == order * block_size,
            order == block_count(pos_end as nat, block_size as nat),
            forall|i: int|
                0 <= i < blocks.len() ==> (#[trigger] blocks[i]).buffer@ == block_bytes(
                    input@,
                    block_size as nat,
                    i as nat,
                ) && blocks[i].order == i && blocks[i].size == 0,
        decreases bytes_left,
    {
        let pos_init: usize = pos_end;
        let step: usize = if bytes_left < block_size {
            input.len() - pos_end
        } else {
            block_size
        };
        pos_end = pos_end + step;
        bytes_left = bytes_left - step;
        let mut buffer_slice: Vec<u8> = Vec::new();
        append_bytes(&mut buffer_slice, input, pos_init, pos_end);
        proof {
            assert((order + 1) * block_size == order * block_size + block_size) by (nonlinear_arith);
            assert(buffer_slice@ =~= block_bytes(input@, block_size as nat, order as nat));
            if step == block_size {
                assert(pos_end == (order + 1) * block_size) by (nonlinear_arith)
                    requires
                        pos_end == order * block_size + block_size,
                ;
                lemma_block_count((order + 1) as nat, 0, block_size as nat);
            } else {
                lemma_block_count(order as nat, step as nat, block_size as nat);
            }
            // The blocks never outnumber the bytes.
            assert(order < input.len()) by (nonlinear_arith)
                requires
                    pos_init == order * block_size,
                    pos_init < input.len(),
                    block_size > 0,
            ;
        }
        blocks.push(Buffer::new(buffer_slice, order, 0));
        order = order + 1;
    }
    Some(blocks)
}

/// Whether every block counts no more bytes than its buffer holds.
fn check_sizes(blocks: &Vec<Buffer>) -> (fit: bool)
    ensures
        fit == sizes_fit(blocks@),
{
    let mut at: usize = 0;
    while at < blocks.len()
        invariant
            at <= blocks.len(),
            forall|i: int| 0 <= i < at ==> blocks[i].size <= blocks[i].buffer@.len(),
        decreases blocks.len() - at,
    {
        if blocks[at].size > blocks[at].buffer.len() {
            return false;
        }
        at = at + 1;
    }
    true
}

/// Numbers each block by its order.
fn number_blocks(blocks: Vec<Buffer>) -> (fragments: Vec<Fragment<Buffer>>)
    ensures
        fragments@ == as_fragments(blocks@),
{
    let ghost original = blocks@;
    let mut pending = reversed(blocks);
    let mut fragments: Vec<Fragment<Buffer>> = Vec::new();
    while pending.len() > 0
        invariant
            pending.len() + fragments.len() == original.len(),
            forall|p: int| 0 <= p < pending.len() ==> pending[p] == original[original.len() - 1 - p],
            forall|i: int| 0 <= i < fragments.len() ==> fragments[i] == as_fragments(original)[i],
        decreases pending.len(),
    {
        let block = pending.pop().unwrap();
        let sequence: u64 = block.order as u64;
        fragments.push(Fragment { sequence, payload: block });
    }
    assert(fragments@ =~= as_fragments(original));
    fragments
}

/// The work of the reducing sink once every producer has closed: puts the
/// collected blocks in the order of their `order` (blocks of equal order stay
/// as they arrived) and joins their valid bytes. Returns `None` if a block
/// counts more bytes than its buffer holds.
#[verifier::spinoff_prover]
pub fn reduce(outputs: Vec<Buffer>) -> (bytes: Option<Vec<u8>>)
    ensures
        sizes_fit(outputs@) <==> bytes is Some,
        bytes matches Some(joined_bytes) ==> joined_bytes@ == joined(
            payloads(in_sequence_order(as_fragments(outputs@))),
        ),
{
    if !check_sizes(&outputs) {
        return None;
    }
    let ghost collected = as_fragments(outputs@);
    let fragments = number_blocks(outputs);
    let sorted = sort_by_sequence(fragments);
    let ghost blocks = payloads(sorted@);
    proof {
        assert forall|i: int| 0 <= i < sorted.len() implies sorted[i].payload.size
            <= sorted[i].payload.buffer@.len() by {
            broadcast use to_multiset_contains;

            assert(sorted@.contains(sorted[i]));
            assert(collected.to_multiset().count(sorted[i]) > 0);
            assert(collected.contains(sorted[i]));
        }
    }
    let mut buffer_output: Vec<u8> = Vec::new();
    let mut at: usize = 0;
    while at < sorted.len()
        invariant
            at <= sorted.len(),
            blocks == payloads(sorted@),
            forall|i: int|
                0 <= i < sorted.len() ==> sorted[i].payload.size <= sorted[i].payload.buffer@.len(),
            buffer_output@ == joined(blocks.take(at as int)),
        decreases sorted.len() - at,
    {
        let block = &sorted[at].payload;
        append_bytes(&mut buffer_output, &block.buffer, 0, block.size);
        proof {
            let next = blocks.take(at + 1);
            assert(next.drop_last() =~= blocks.take(at as int));
            assert(next.last() == sorted[at as int].payload);
        }
        at = at + 1;
    }
    proof {
        assert(blocks.take(at as int) =~= blocks);
    }
    Some(buffer_output)
}

/// Cutting loses nothing: blocks that hold the bytes of the chunking policy
/// and count all of them join to the input.
pub proof fn lemma_blocks_join_to_input(input: Seq<u8>, block_size: nat, blocks: Seq<Buffer>)
    requires
        block_size > 0,
        blocks.len() == block_count(input.len(), block_size),
        forall|i: int|
            0 <= i < blocks.len() ==> valid_bytes(#[trigger] blocks[i]) == block_bytes(
                input,
                block_size,
                i as nat,
            ),
    ensures
        joined(blocks) == input,
{
    let b = block_size as int;
    let n = input.len() as int;
    lemma_fundamental_div_mod(n + b - 1, b);
    let count = blocks.len() as int;
    // The blocks cover the input: the last one ends at its end.
    assert(count * b >= n && (count - 1) * b < n || n == 0 && count == 0) by (nonlinear_arith)
        requires
            n + b - 1 == b * count + (n + b - 1) % b,
            0 <= (n + b - 1) % b < b,
            n >= 0,
            b > 0,
            count >= 0,
    ;
    lemma_joined_prefix(input, block_size, blocks, blocks.len());
    assert(blocks.take(count) =~= blocks);
    if count * b > n {
        assert(input.subrange(0, n) =~= input);
    } else {
        assert(input.subrange(0, count * b) =~= input);
    }
}

/// The first `upto` blocks join to the first `upto * block_size` bytes of the
/// input, or to all of it where it ends before.
proof fn lemma_joined_prefix(input: Seq<u8>, block_size: nat, blocks: Seq<Buffer>, upto: nat)
    requires
        block_size > 0,
        upto <= blocks.len(),
        forall|i: int|
            0 <= i < blocks.len() ==> valid_bytes(#[trigger] blocks[i]) == block_bytes(
                input,
                block_size,
                i as nat,
            ),
        upto > 0 ==> (upto - 1) * block_size <= input.len(),
    ensures
        joined(blocks.take(upto as int)) == input.subrange(
            0,
            blocks_end(input.len(), block_size, upto),
        ),
    decreases upto,
{
    if upto == 0 {
        assert(blocks.take(0) =~= Seq::<Buffer>::empty());
        assert(0 * block_size == 0) by (nonlinear_arith);
        assert(joined(blocks.take(0)) =~= input.subrange(0, 0));
    } else {
        let before = (upto - 1) as nat;
        assert(before * block_size + block_size == upto * block_size) by (nonlinear_arith)
            requires
                before + 1 == upto,
        ;
        if before > 0 {
            assert((before - 1) * block_size <= before * block_size) by (nonlinear_arith)
                requires
                    before >= 1,
            ;
        }
        lemma_joined_prefix(input, block_size, blocks, before);
        let now = blocks.take(upto as int);
        assert(now.drop_last() =~= blocks.take(before as int));
        assert(now.last() == blocks[before as int]);
        assert(joined(now) =~= input.subrange(0, blocks_end(input.len(), block_size, upto)));
    }
}

} // verus!
