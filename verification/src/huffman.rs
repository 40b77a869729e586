//! The Huffman coder: counts, bounds, and the encoder over the reverse bit
//! stream.

use vstd::prelude::*;
use vstd::arithmetic::power2::pow2;
use crate::spread::occurrences;
use crate::bitstream::{BitCstream, NUM_BITS_IN_BIT_CONTAINER, fields_bits, fields_value, le_value, lemma_stream_add, lemma_stream_bytes, lemma_stream_start};
use crate::tree::{
    MinNode, Node, spec_leaves, parent_node, count_sum,
};

verus! {

pub const HUF_CTABLEBOUND: u32 = 129;

pub const HUF_CTABLE_WORKSPACE_SIZE: u32 = 512;

pub const HUF_BLOCKSIZE_MAX: u32 = 131072;

pub const HUF_WORKSPACE_SIZE: u32 = 6400;

pub const HUF_TABLELOG_MAX: u32 = 12;

/// Longest code that the coder works with.
pub const HUF_TABLELOG_ABSOLUTEMAX: u32 = 15;

pub const HUF_TABLELOG_DEFAULT: u32 = 11;

/// Room that a block of `size` bytes is given.
pub fn huf_blockbound(size: usize) -> (bound: usize)
    requires
        size + size / 256 + 8 <= usize::MAX,
    ensures
        bound == size + size / 256 + 8,
{
    assert(size >> 8 == size / 256) by (bit_vector);
    size + (size >> 8) + 8
}

/// Room that the compressed form of `size` bytes is given, code table
/// included.
pub fn huf_compressbound(size: usize) -> (bound: usize)
    requires
        size + size / 256 + 137 <= usize::MAX,
    ensures
        bound == size + size / 256 + 137,
{
    huf_blockbound(size) + HUF_CTABLEBOUND as usize
}

/// Counts the occurrences of each byte value.
pub fn count_simple(input: &[u8]) -> (counts: [usize; 256])
    ensures
        forall|s: int|
            0 <= s < 256 ==> #[trigger] counts@[s] == occurrences(input@, s as u8, input@.len()),
{
    let mut counts = [0usize; 256];
    let mut i: usize = 0;
    while i < input.len()
        invariant
            i <= input@.len(),
            forall|s: int|
                0 <= s < 256 ==> #[trigger] counts@[s] == occurrences(input@, s as u8, i as nat),
        decreases input@.len() - i,
    {
        let byte = input[i];
        proof {
            crate::lemma_occurrences_within(input@, byte, i as nat);
        }
        counts[byte as usize] = counts[byte as usize] + 1;
        i += 1;
    }
    counts
}

/// The largest of the counts.
pub open spec fn spec_max_value(counts: Seq<usize>, n: nat) -> usize
    decreases n,
{
    if n == 0 {
        0
    } else {
        let rest = spec_max_value(counts, (n - 1) as nat);
        if counts[n - 1] > rest {
            counts[n - 1]
        } else {
            rest
        }
    }
}

/// The largest of the counts.
pub fn get_max_value(counts: &[usize; 256]) -> (most: usize)
    ensures
        most == spec_max_value(counts@, 256),
        forall|s: int| 0 <= s < 256 ==> #[trigger] counts@[s] <= most,
{
    let mut most: usize = 0;
    let mut s: usize = 0;
    while s < 256
        invariant
            s <= 256,
            most == spec_max_value(counts@, s as nat),
            forall|x: int| 0 <= x < s ==> #[trigger] counts@[x] <= most,
        decreases 256 - s,
    {
        if counts[s] > most {
            most = counts[s];
        }
        s += 1;
    }
    most
}

/// The fields that the symbols from the last one down to index `i` put
/// into the stream: the code of each, at its length.
pub open spec fn huf_fields(table: Seq<MinNode>, input: Seq<u8>, i: int) -> Seq<(nat, nat)>
    decreases input.len() - i,
{
    if i < 0 || i >= input.len() {
        Seq::empty()
    } else {
        huf_fields(table, input, i + 1).push(
            (table[input[i] as int].val as nat, table[input[i] as int].number_bits as nat),
        )
    }
}

/// All fields of the compressed stream: the codes of the symbols, the last
/// symbol first, and the end mark.
pub open spec fn spec_huf_fields(table: Seq<MinNode>, input: Seq<u8>) -> Seq<(nat, nat)> {
    huf_fields(table, input, 0).push((1nat, 1nat))
}

/// The table has a code of at most `HUF_TABLELOG_MAX` bits, with no bit set
/// above its length, for every symbol of `input`.
pub open spec fn codes_fit(table: Seq<MinNode>, input: Seq<u8>) -> bool {
    &&& table.len() >= 256
    &&& forall|i: int|
        0 <= i < input.len() ==> (#[trigger] table[input[i] as int]).number_bits <= 12
            && table[input[i] as int].val < pow2(table[input[i] as int].number_bits as nat)
}

pub proof fn lemma_huf_step(table: Seq<MinNode>, input: Seq<u8>, i: int)
    requires
        0 <= i < input.len(),
    ensures
        ({
            let code = table[input[i] as int];
            let rest = huf_fields(table, input, i + 1);
            &&& fields_bits(huf_fields(table, input, i)) == fields_bits(rest) + code.number_bits
            &&& fields_value(huf_fields(table, input, i)) == fields_value(rest) + code.val * pow2(
                fields_bits(rest),
            )
        }),
{
    let code = table[input[i] as int];
    let rest = huf_fields(table, input, i + 1);
    assert(rest.push((code.val as nat, code.number_bits as nat)).drop_last() =~= rest);
}

pub proof fn lemma_huf_bits_monotone(table: Seq<MinNode>, input: Seq<u8>, i: int)
    requires
        0 <= i <= input.len(),
    ensures
        fields_bits(huf_fields(table, input, i)) <= fields_bits(huf_fields(table, input, 0)),
        fields_bits(huf_fields(table, input, input.len() as int)) == 0,
    decreases i,
{
    if i > 0 {
        lemma_huf_step(table, input, i - 1);
        lemma_huf_bits_monotone(table, input, i - 1);
    }
}

/// Puts the code of `symbol` into the stream.
pub fn huf_encode_symbol(symbol: u8, bit_c: &mut BitCstream, table: &[MinNode])
    requires
        symbol < table@.len(),
        old(bit_c).wf(),
        old(bit_c).bit_pos + table@[symbol as int].number_bits < 64,
        table@[symbol as int].val < pow2(table@[symbol as int].number_bits as nat),
    ensures
        final(bit_c).wf(),
        final(bit_c).data_pos == old(bit_c).data_pos,
        final(bit_c).bit_pos == old(bit_c).bit_pos + table@[symbol as int].number_bits,
        final(bit_c).bit_container == old(bit_c).bit_container + table@[symbol as int].val * pow2(
            old(bit_c).bit_pos as nat,
        ),
        final(bit_c).bits() == old(bit_c).bits() + table@[symbol as int].number_bits,
        forall|data: Seq<u8>| #[trigger]
            final(bit_c).value(data) == old(bit_c).value(data) + table@[symbol as int].val * pow2(
                old(bit_c).bits(),
            ),
{
    let ghost before = *bit_c;
    let node = table[symbol as usize];
    bit_c.add_bits_fast(node.val as u64, node.number_bits as u32);
    proof {
        assert forall|data: Seq<u8>| #[trigger]
            bit_c.value(data) == before.value(data) + node.val * pow2(before.bits()) by {
            lemma_stream_add(before, *bit_c, data, node.val as nat);
        }
    }
}

/// Stores the register where it can hold two more codes after that.
pub fn huf_flush_bits_1(bit_c: &mut BitCstream, dst: &mut [u8])
    requires
        old(bit_c).wf(),
        old(bit_c).data_pos + 8 <= old(dst)@.len(),
    ensures
        final(bit_c).wf(),
        final(bit_c).data_pos == old(bit_c).data_pos + old(bit_c).bit_pos / 8,
        final(bit_c).bit_pos == old(bit_c).bit_pos % 8,
        final(bit_c).bits() == old(bit_c).bits(),
        final(bit_c).value(final(dst)@) == old(bit_c).value(old(dst)@),
        final(dst)@.len() == old(dst)@.len(),
        final(bit_c).bit_pos > 0 ==> final(dst)@[final(bit_c).data_pos as int] == final(bit_c).bit_container,
{
    if NUM_BITS_IN_BIT_CONTAINER > HUF_TABLELOG_MAX * 2 + 7 {
        bit_c.flush_bits_fast(dst);
    }
}

/// Stores the register where it can hold four more codes after that.
pub fn huf_flush_bits_2(bit_c: &mut BitCstream, dst: &mut [u8])
    requires
        old(bit_c).wf(),
        old(bit_c).data_pos + 8 <= old(dst)@.len(),
    ensures
        final(bit_c).wf(),
        final(bit_c).data_pos == old(bit_c).data_pos + old(bit_c).bit_pos / 8,
        final(bit_c).bit_pos == old(bit_c).bit_pos % 8,
        final(bit_c).bits() == old(bit_c).bits(),
        final(bit_c).value(final(dst)@) == old(bit_c).value(old(dst)@),
        final(dst)@.len() == old(dst)@.len(),
        final(bit_c).bit_pos > 0 ==> final(dst)@[final(bit_c).data_pos as int] == final(bit_c).bit_container,
{
    if NUM_BITS_IN_BIT_CONTAINER > HUF_TABLELOG_MAX * 4 + 7 {
        bit_c.flush_bits_fast(dst);
    }
}

/// Takes in the symbol at `index` and stores the register.
fn encode_and_flush(table: &[MinNode], input: &[u8], dst: &mut [u8], bit_c: &mut BitCstream, index: usize)
    requires
        index < input@.len(),
        codes_fit(table@, input@),
        old(bit_c).wf(),
        old(bit_c).bit_pos < 8,
        old(bit_c).bits() == fields_bits(huf_fields(table@, input@, index + 1)),
        old(bit_c).value(old(dst)@) == fields_value(huf_fields(table@, input@, index + 1)),
        fields_bits(huf_fields(table@, input@, 0)) / 8 + 8 <= old(dst)@.len(),
    ensures
        final(bit_c).wf(),
        final(bit_c).bit_pos < 8,
        final(bit_c).bits() == fields_bits(huf_fields(table@, input@, index as int)),
        final(bit_c).value(final(dst)@) == fields_value(huf_fields(table@, input@, index as int)),
        final(dst)@.len() == old(dst)@.len(),
{
    proof {
        lemma_huf_step(table@, input@, index as int);
        lemma_huf_bits_monotone(table@, input@, index as int);
        lemma_huf_bits_monotone(table@, input@, index + 1);
    }
    huf_encode_symbol(input[index], bit_c, table);
    bit_c.flush_bits_fast(dst);
}

/// Compresses `input` into `dst` with the codes of `table`, the last
/// symbol first.
///
/// The first bytes of `dst` hold the stream that the fields of
/// `spec_huf_fields` make up, low byte first, a started byte included.
pub fn compress_1x_rev(table: &[MinNode], input: &[u8], dst: &mut [u8])
    requires
        codes_fit(table@, input@),
        (fields_bits(huf_fields(table@, input@, 0)) + 1) / 8 + 8 <= old(dst)@.len(),
    ensures
        final(dst)@.len() == old(dst)@.len(),
        le_value(
            final(dst)@.subrange(0, ((fields_bits(spec_huf_fields(table@, input@)) + 7) / 8) as int),
        ) == fields_value(spec_huf_fields(table@, input@)),
{
    let mut bit_c = BitCstream::new();
    let mut index: usize = input.len();
    let ghost codes = table@;
    let ghost text = input@;
    proof {
        lemma_stream_start(bit_c, dst@);
        lemma_huf_bits_monotone(codes, text, text.len() as int);
        assert(huf_fields(codes, text, text.len() as int) =~= Seq::<(nat, nat)>::empty());
    }
    let len = input.len();
    assert(len & 3 == len % 4) by (bit_vector);
    let mod_4 = input.len() & 3;
    if mod_4 >= 3 {
        index -= 1;
        huf_encode_symbol(input[index], &mut bit_c, table);
        proof {
            lemma_huf_step(codes, text, index as int);
            lemma_huf_bits_monotone(codes, text, index as int);
            lemma_stream_start(BitCstream { bit_container: 0, bit_pos: 0, data_pos: 0 }, dst@);
        }
        huf_flush_bits_2(&mut bit_c, dst);
    }
    if mod_4 >= 2 {
        index -= 1;
        encode_and_flush_1(table, input, dst, &mut bit_c, index);
    }
    if mod_4 >= 1 {
        index -= 1;
        encode_and_flush(table, input, dst, &mut bit_c, index);
    }
    while index >= 4
        invariant
            index % 4 == 0,
            index <= text.len(),
            text == input@,
            codes == table@,
            codes_fit(codes, text),
            bit_c.wf(),
            bit_c.bit_pos < 8,
            bit_c.bits() == fields_bits(huf_fields(codes, text, index as int)),
            bit_c.value(dst@) == fields_value(huf_fields(codes, text, index as int)),
            (fields_bits(huf_fields(codes, text, 0)) + 1) / 8 + 8 <= dst@.len(),
            dst@.len() == old(dst)@.len(),
        decreases index,
    {
        proof {
            lemma_huf_step(codes, text, index - 1);
            lemma_huf_step(codes, text, index - 2);
            lemma_huf_step(codes, text, index - 3);
            lemma_huf_step(codes, text, index - 4);
            lemma_huf_bits_monotone(codes, text, index - 4);
        }
        let ghost held = dst@;
        huf_encode_symbol(input[index - 1], &mut bit_c, table);
        assert(bit_c.value(held) == fields_value(huf_fields(codes, text, index - 1)));
        huf_encode_symbol(input[index - 2], &mut bit_c, table);
        assert(bit_c.value(held) == fields_value(huf_fields(codes, text, index - 2)));
        huf_encode_symbol(input[index - 3], &mut bit_c, table);
        assert(bit_c.value(held) == fields_value(huf_fields(codes, text, index - 3)));
        huf_encode_symbol(input[index - 4], &mut bit_c, table);
        assert(bit_c.value(held) == fields_value(huf_fields(codes, text, index - 4)));
        bit_c.flush_bits_fast(dst);
        index -= 4;
    }
    proof {
        crate::bitstream::lemma_push_field(huf_fields(codes, text, 0), (1nat, 1nat));
        assert(1 * pow2(bit_c.bits()) == pow2(bit_c.bits()));
    }
    bit_c.finish_stream(dst);
    proof {
        lemma_stream_bytes(bit_c, dst@);
    }
}

/// Takes in the symbol at `index` and stores the register where it can
/// hold two more codes after that.
fn encode_and_flush_1(table: &[MinNode], input: &[u8], dst: &mut [u8], bit_c: &mut BitCstream, index: usize)
    requires
        index < input@.len(),
        codes_fit(table@, input@),
        old(bit_c).wf(),
        old(bit_c).bit_pos < 8,
        old(bit_c).bits() == fields_bits(huf_fields(table@, input@, index + 1)),
        old(bit_c).value(old(dst)@) == fields_value(huf_fields(table@, input@, index + 1)),
        fields_bits(huf_fields(table@, input@, 0)) / 8 + 8 <= old(dst)@.len(),
    ensures
        final(bit_c).wf(),
        final(bit_c).bit_pos < 8,
        final(bit_c).bits() == fields_bits(huf_fields(table@, input@, index as int)),
        final(bit_c).value(final(dst)@) == fields_value(huf_fields(table@, input@, index as int)),
        final(dst)@.len() == old(dst)@.len(),
{
    proof {
        lemma_huf_step(table@, input@, index as int);
        lemma_huf_bits_monotone(table@, input@, index as int);
        lemma_huf_bits_monotone(table@, input@, index + 1);
    }
    huf_encode_symbol(input[index], bit_c, table);
    huf_flush_bits_1(bit_c, dst);
}

/// Position of the first node with the lowest count among the first `n`.
pub open spec fn lowest_pos(queue: Seq<Node>, n: nat) -> int
    decreases n,
{
    if n <= 1 {
        0
    } else {
        let before = lowest_pos(queue, (n - 1) as nat);
        if queue[n - 1].count < queue[before].count {
            n - 1
        } else {
            before
        }
    }
}

/// The nodes once the queue is used up: the two lowest nodes of the queue,
/// the first of equal ones first, are put behind the nodes, and their
/// parent joins the end of the queue; the last node left is the root.
pub open spec fn heap_rounds(queue: Seq<Node>, nodes: Seq<Node>) -> Seq<Node>
    decreases queue.len(),
{
    if queue.len() == 0 {
        nodes
    } else {
        proof {
            lemma_lowest_pos(queue, queue.len());
        }
        let first = lowest_pos(queue, queue.len());
        let rest = queue.remove(first);
        if rest.len() == 0 {
            nodes.push(queue[first])
        } else {
            proof {
                lemma_lowest_pos(rest, rest.len());
            }
            let second = lowest_pos(rest, rest.len());
            let placed = nodes.push(queue[first]).push(rest[second]);
            heap_rounds(
                rest.remove(second).push(
                    parent_node(
                        count_sum(queue[first].count, rest[second].count),
                        Some((placed.len() - 2) as u16),
                        Some((placed.len() - 1) as u16),
                    ),
                ),
                placed,
            )
        }
    }
}

pub proof fn lemma_lowest_pos(queue: Seq<Node>, n: nat)
    requires
        1 <= n <= queue.len(),
    ensures
        0 <= lowest_pos(queue, n) < n,
        forall|i: int| 0 <= i < n ==> queue[lowest_pos(queue, n)].count <= (#[trigger] queue[i]).count,
    decreases n,
{
    if n > 1 {
        lemma_lowest_pos(queue, (n - 1) as nat);
    }
}

/// Takes the first node with the lowest count out of the queue.
pub fn pop_lowest(queue: &mut Vec<Node>) -> (node: Option<Node>)
    ensures
        old(queue)@.len() == 0 ==> node is None && final(queue)@ == old(queue)@,
        old(queue)@.len() > 0 ==> node == Some(
            old(queue)@[lowest_pos(old(queue)@, old(queue)@.len())],
        ) && final(queue)@ == old(queue)@.remove(lowest_pos(old(queue)@, old(queue)@.len()))
            && final(queue)@.len() == old(queue)@.len() - 1,
{
    if queue.len() == 0 {
        return None;
    }
    let mut lowest: usize = 0;
    let mut i: usize = 1;
    while i < queue.len()
        invariant
            1 <= i <= queue@.len(),
            lowest < i,
            lowest == lowest_pos(queue@, i as nat),
        decreases queue@.len() - i,
    {
        if queue[i].count < queue[lowest].count {
            lowest = i;
        }
        i += 1;
    }
    Some(queue.remove(lowest))
}

/// Builds a tree by taking the two lowest nodes out of a queue again and
/// again: gives the nodes in the order in which they leave the queue, the
/// root last. Counts are taken and added modulo `2^32`.
pub fn build_tree_heap(counts: &[usize; 256]) -> (nodes: Vec<Node>)
    ensures
        nodes@ == heap_rounds(spec_leaves(counts@, 256), Seq::empty()),
{
    let mut heap: Vec<Node> = Vec::new();
    let mut byte: usize = 0;
    while byte < 256
        invariant
            byte <= 256,
            heap@ == spec_leaves(counts@, byte as nat),
        decreases 256 - byte,
    {
        if counts[byte] != 0 {
            proof {
                let low = counts@[byte as int] as u64;
                assert(low as u32 == low % 0x1_0000_0000u64) by (bit_vector);
            }
            heap.push(
                Node {
                    symbol: Some(byte as u8),
                    count: #[verifier::truncate] (counts[byte] as u32),
                    left: None,
                    right: None,
                    number_bits: 0,
                },
            );
        }
        byte += 1;
    }
    proof {
        crate::tree::lemma_leaves_len(counts@, 256);
    }
    let ghost goal = heap_rounds(heap@, Seq::empty());
    let mut nodes: Vec<Node> = Vec::new();
    loop
        invariant_except_break
            heap_rounds(heap@, nodes@) == goal,
            nodes@.len() + 2 * heap@.len() <= 512,
        ensures
            nodes@ == goal,
        decreases heap@.len(),
    {
        let ghost queue = heap@;
        let el1 = match pop_lowest(&mut heap) {
            Some(node) => node,
            None => {
                break;
            },
        };
        proof {
            lemma_lowest_pos(queue, queue.len());
        }
        match pop_lowest(&mut heap) {
            Some(el2) => {
                nodes.push(el1);
                nodes.push(el2);
                heap.push(
                    Node {
                        symbol: None,
                        count: el1.count.wrapping_add(el2.count),
                        left: Some(nodes.len() as u16 - 2),
                        right: Some(nodes.len() as u16 - 1),
                        number_bits: 0,
                    },
                );
            },
            None => {
                nodes.push(el1);
                break;
            },
        }
    }
    nodes
}

} // verus!
