//! A byte-oriented canonical Huffman codec.
//!
//! `compress` turns a byte sequence into a self-describing container: a
//! header listing each distinct symbol with its canonical code length, then
//! the bit-packed payload.  Empty input compresses to empty output.

pub mod bit_writer;
pub mod bits;
pub mod byte_map;
pub mod decoder;
pub mod encoder;
pub mod frequency;
pub mod tree;

use vstd::prelude::*;
use crate::huffman::bit_writer::BitWriter;
use crate::huffman::bits::{bytes_bits, lemma_pack_bits_bytes, pack_bits};
use crate::huffman::bits::{lemma_bytes_bits_pack_bits, lemma_code_bits_zero, lemma_pack_bits_len};
use crate::huffman::byte_map::{
    byte_count, canon_entries, canon_order, code_le, has_symbol, kraft_sum, lemma_byte_count_two,
    lemma_sort_lengths_byte_count, lemma_sort_lengths_ensures, lemma_sort_lengths_symbol,
    lemma_sym_code_full_some, len_sorted, lens_ok, sort_lengths, sym_code_full, CodeLength,
};
use crate::huffman::decoder::{
    lemma_decode_payload, lemma_pair_error_none, pair_error, spec_decompress, spec_stored_pairs,
    table_ok,
};
use crate::huffman::encoder::{
    header_pairs, lemma_header_pairs_index, spec_header, spec_payload_bits, Encoder,
};
use crate::huffman::frequency::{
    count_occurrences, lemma_count_occurrences_le_len, lemma_count_occurrences_positive,
    Frequencies,
};
use crate::huffman::byte_map::CodeEntry;
use crate::huffman::tree::{
    height, initial_nodes, leaf_count, leaf_syms, lemma_code_lengths_of_tree,
    lemma_code_lengths_sym_count, lemma_initial_sym_count, lemma_merge_all_sym_count, HuffmanNode,
    lemma_code_lengths_syms, lemma_height_lt_leaf_count, lemma_initial_nodes_len,
    lemma_initial_nodes_leaves, lemma_initial_nodes_nonempty, lemma_initial_nodes_syms,
    lemma_kraft_tree, lemma_merge_all_leaf_count, lemma_merge_all_syms, spec_code_lengths,
    spec_tree,
};
use vstd::arithmetic::power2::pow2;

verus! {

/// Why a codec operation could not complete.
#[derive(Clone, Copy, Debug, PartialEq, Eq, Structural)]
pub enum CodecError {
    /// A canonical code would be longer than the 63 bits a pattern word holds.
    CodeTooLong,
    /// The input is not a well-formed container.
    CorruptData,
}

/// The 256-entry histogram of a byte sequence.
pub open spec fn spec_histogram(input: Seq<u8>) -> Seq<u64> {
    Seq::new(256, |b: int| count_occurrences(input, b as u8) as u64)
}

/// The symbol/depth pairs of the input's Huffman tree, in leaf order.
pub open spec fn spec_lengths(input: Seq<u8>) -> Seq<CodeLength> {
    spec_code_lengths(spec_tree(spec_histogram(input)), 0)
}

/// The sorted `(length, symbol)` list that the header stores.
pub open spec fn spec_order(input: Seq<u8>) -> Seq<CodeLength> {
    canon_order(spec_lengths(input))
}

/// Whether every canonical code of this input fits in a 63-bit pattern.
pub open spec fn code_depth_ok(input: Seq<u8>) -> bool {
    forall|i: int|
        0 <= i < spec_lengths(input).len() ==> (#[trigger] spec_lengths(input)[i]).len <= 63
}

/// The container that `compress` produces: nothing for empty input, else the
/// header followed by the packed payload bits.
pub open spec fn spec_compress(input: Seq<u8>) -> Seq<u8> {
    if input.len() == 0 {
        Seq::empty()
    } else {
        spec_header(spec_order(input)) + pack_bits(spec_payload_bits(input, spec_order(input)))
    }
}

/// Compresses `input` into the container format: a symbol-count header, the
/// `(symbol, length)` table in canonical order, and the bit-packed payload.
/// Empty input yields empty output.  Fails only when some canonical code
/// would exceed 63 bits, which needs an input of many terabytes.
pub fn compress(input: &Vec<u8>) -> (r: Result<Vec<u8>, CodecError>)
    ensures
        match r {
            Ok(out) => (input@.len() == 0 || code_depth_ok(input@)) && out@ == spec_compress(
                input@,
            ),
            Err(e) => e == CodecError::CodeTooLong && input@.len() > 0 && !code_depth_ok(input@),
        },
{
    let input_len = input.len();
    let frequencies = Frequencies::from_input(input);
    if frequencies.is_empty() {
        proof {
            if input@.len() > 0 {
                lemma_count_occurrences_positive(input@, 0);
                assert(frequencies.count(input@[0]) as nat == count_occurrences(
                    input@,
                    input@[0],
                ));
            }
            assert(input@.len() == 0);
            assert(spec_compress(input@) =~= Seq::<u8>::empty());
        }
        return Ok(Vec::new());
    }
    proof {
        assert(input@.len() == input_len);
        let wb = choose|wb: u8| frequencies.count(wb) != 0;
        lemma_count_occurrences_le_len(input@, wb);
        assert(input@.len() > 0);
        assert(frequencies.counts() =~= spec_histogram(input@)) by {
            assert forall|b: int| 0 <= b < 256 implies frequencies.counts()[b] == spec_histogram(
                input@,
            )[b] by {
                lemma_count_occurrences_le_len(input@, b as u8);
                assert(frequencies.count(b as u8) as nat == count_occurrences(input@, b as u8));
            }
        }
    }
    let tree = frequencies.to_huff_tree();
    let mut lens: Vec<CodeLength> = Vec::new();
    tree.traverse(0, &mut lens);
    proof {
        assert(lens@ =~= spec_lengths(input@));
        lemma_code_lengths_of_tree(tree, 0);
    }
    let n = lens.len();
    let mut i: usize = 0;
    while i < n
        invariant
            i <= n == lens@.len(),
            input@.len() > 0,
            lens@ == spec_lengths(input@),
            forall|j: int| 0 <= j < i ==> (#[trigger] lens@[j]).len <= 63,
        decreases n - i,
    {
        if lens[i].len > 63 {
            proof {
                assert(!code_depth_ok(input@));
            }
            return Err(CodecError::CodeTooLong);
        }
        i = i + 1;
    }
    proof {
        assert(code_depth_ok(input@));
        assert(height(tree) <= 63) by {
            let k = choose|k: int|
                0 <= k < spec_code_lengths(tree, 0).len() && (#[trigger] spec_code_lengths(
                    tree,
                    0,
                )[k]).len as nat == height(tree);
            assert(lens@[k].len <= 63);
        }
    }
    let map = tree.to_byte_map();
    let ghost order = map.order();
    proof {
        lemma_sort_lengths_ensures(lens@, 63);
        // every symbol of the input has an entry in the table
        assert forall|k: int| 0 <= k < input@.len() implies (#[trigger] map.entry(
            input@[k],
        )).is_some() by {
            let b = input@[k];
            lemma_count_occurrences_positive(input@, k);
            assert(frequencies.count(b) > 0);
            lemma_code_lengths_syms(tree, 0, b);
            assert(has_symbol(lens@, b));
            if lens@.len() == 1 {
                let m = choose|m: int| 0 <= m < lens@.len() && lens@[m].byte == b;
                assert(order[0].byte == b);
            } else {
                lemma_sort_lengths_symbol(lens@, b);
            }
        }
        // every code in the table is at most 63 bits long
        assert forall|b: u8| (#[trigger] map.entry(b)) matches Some(e) ==> e.len <= 64 by {
            if map.entry(b).is_some() {
                let idx = choose|idx: int|
                    0 <= idx < order.len() && (#[trigger] order[idx]).byte == b && map.entry(b)
                        == Some(canon_entries(order)[idx]);
                if lens@.len() == 1 {
                    assert(canon_entries(order)[idx].len == 1);
                } else {
                    assert(order == sort_lengths(lens@));
                    assert(lens@.contains(order[idx]));
                    let m = choose|m: int| 0 <= m < lens@.len() && lens@[m] == order[idx];
                    assert(lens@[m].len <= 63);
                    assert(canon_entries(order)[idx].len == order[idx].len);
                }
            }
        }
        assert(order.len() < 65536) by {
            if lens@.len() != 1 {
                assert(order.len() == lens@.len());
            }
        }
    }
    let mut writer = BitWriter::new();
    let encoder = Encoder::new(input, &map);
    encoder.encode(&mut writer);
    let out = writer.into_inner();
    proof {
        assert(Seq::<bool>::empty() + bytes_bits(spec_header(order)) + spec_payload_bits(
            input@,
            order,
        ) =~= bytes_bits(spec_header(order)) + spec_payload_bits(input@, order));
        lemma_pack_bits_bytes(spec_header(order), spec_payload_bits(input@, order));
        assert(order == spec_order(input@));
        assert(out@ == spec_compress(input@));
    }
    Ok(out)
}


/// The header's sorted list for a compressible input is a valid code table:
/// in range, sorted, within the Kraft bound, and covering every input byte.
pub proof fn lemma_order_valid(input: Seq<u8>)
    requires
        0 < input.len() <= u64::MAX,
        code_depth_ok(input),
    ensures
        1 <= spec_order(input).len() <= 256,
        forall|i: int|
            0 <= i < spec_order(input).len() ==> 1 <= (#[trigger] spec_order(input)[i]).len <= 63,
        forall|i: int, j: int|
            0 <= i <= j < spec_order(input).len() ==> (#[trigger] spec_order(input)[i]).len <= (
            #[trigger] spec_order(input)[j]).len,
        kraft_sum(spec_order(input), 63) <= pow2(63),
        table_ok(spec_order(input)),
        forall|k: int|
            0 <= k < input.len() ==> sym_code_full(spec_order(input), #[trigger] input[k]).is_some(),
{
    let hist = spec_histogram(input);
    let tree = spec_tree(hist);
    let lens = spec_lengths(input);
    let order = spec_order(input);
    let b0 = input[0];
    lemma_count_occurrences_positive(input, 0);
    lemma_count_occurrences_le_len(input, b0);
    assert(hist[b0 as int] > 0);
    lemma_initial_nodes_nonempty(hist, 256, b0 as int);
    lemma_initial_nodes_len(hist, 256);
    lemma_initial_nodes_leaves(hist, 256);
    lemma_merge_all_leaf_count(initial_nodes(hist, 256), 256);
    assert(1 <= leaf_count(tree) <= 256);
    lemma_height_lt_leaf_count(tree);
    lemma_code_lengths_of_tree(tree, 0);
    assert(lens.len() == leaf_count(tree));
    assert(height(tree) <= 63) by {
        let k = choose|k: int|
            0 <= k < spec_code_lengths(tree, 0).len() && (#[trigger] spec_code_lengths(
                tree,
                0,
            )[k]).len as nat == height(tree);
        assert(lens[k].len <= 63);
    }
    assert forall|k: int| 0 <= k < input.len() implies has_symbol(
        lens,
        #[trigger] input[k],
    ) by {
        let b = input[k];
        lemma_count_occurrences_positive(input, k);
        lemma_count_occurrences_le_len(input, b);
        assert(hist[b as int] > 0);
        lemma_merge_all_syms(initial_nodes(hist, 256), 256, b);
        lemma_initial_nodes_syms(hist, 256, b);
        assert(leaf_syms(tree).contains(b));
        lemma_code_lengths_syms(tree, 0, b);
    }
    if lens.len() == 1 {
        assert(order =~= seq![CodeLength { byte: lens[0].byte, len: 1u8 }]);
        assert(kraft_sum(order, 63) == pow2(62)) by {
            assert(order.drop_last() =~= Seq::<CodeLength>::empty());
            assert(kraft_sum(Seq::<CodeLength>::empty(), 63) == 0);
            assert(order.last().len == 1);
            assert(kraft_sum(order, 63) == kraft_sum(order.drop_last(), 63) + pow2(62));
        }
        assert(pow2(62) <= pow2(63)) by {
            vstd::arithmetic::power2::lemma_pow2_strictly_increases(62, 63);
        }
        assert forall|k: int| 0 <= k < input.len() implies sym_code_full(
            order,
            #[trigger] input[k],
        ).is_some() by {
            let b = input[k];
            let m = choose|m: int| 0 <= m < lens.len() && lens[m].byte == b;
            assert(order[0].byte == b);
            assert(has_symbol(order, b));
            lemma_sym_code_full_some(order, b);
        }
    } else {
        assert(leaf_count(tree) >= 2);
        lemma_sort_lengths_ensures(lens, 63);
        assert(order == sort_lengths(lens));
        assert forall|i: int| 0 <= i < order.len() implies 1 <= (#[trigger] order[i]).len
            <= 63 by {
            assert(lens.contains(order[i]));
            let m = choose|m: int| 0 <= m < lens.len() && lens[m] == order[i];
            assert(1 <= lens[m].len <= 63);
        }
        assert forall|i: int, j: int| 0 <= i <= j < order.len() implies (
        #[trigger] order[i]).len <= (#[trigger] order[j]).len by {
            assert(crate::huffman::byte_map::code_le(order[i], order[j]));
        }
        lemma_kraft_tree(tree, 0, 63);
        assert(kraft_sum(order, 63) == pow2(63));
        assert(table_ok(order)) by {
            assert(len_sorted(order));
            assert(lens_ok(order, 63));
        }
        assert forall|k: int| 0 <= k < input.len() implies sym_code_full(
            order,
            #[trigger] input[k],
        ).is_some() by {
            let b = input[k];
            lemma_sort_lengths_symbol(lens, b);
            lemma_sym_code_full_some(order, b);
        }
    }
}

/// Round trip: decompressing a compressed stream, given the original length,
/// yields exactly the original input.  Inputs are limited to those the
/// machine can hold, and to those whose canonical codes fit the pattern word
/// (every input of fewer than terabytes).
pub proof fn lemma_round_trip(input: Seq<u8>)
    requires
        input.len() <= u64::MAX,
        input.len() == 0 || code_depth_ok(input),
    ensures
        spec_decompress(spec_compress(input), input.len()) == Ok::<Seq<u8>, CodecError>(input),
{
    if input.len() == 0 {
        assert(spec_compress(input).len() == 0);
        assert(input =~= Seq::<u8>::empty());
        assert(spec_decompress(spec_compress(input), 0) == Ok::<Seq<u8>, CodecError>(
            Seq::empty(),
        ));
    } else {
        lemma_order_valid(input);
        let order = spec_order(input);
        let n = order.len();
        let hd = spec_header(order);
        let pay = spec_payload_bits(input, order);
        let packed = pack_bits(pay);
        let c = spec_compress(input);
        assert(c == hd + packed);
        lemma_header_pairs_index(order);
        assert(hd.len() == 2 + 2 * n);
        assert(c.len() >= 2 + 2 * n);
        let hi = (n / 256) as u8;
        let lo = (n % 256) as u8;
        assert(c[0] == hi && c[1] == lo) by {
            assert(hd[0] == hi && hd[1] == lo);
        }
        assert(hi as int * 256 + lo as int == n) by {
            vstd::arithmetic::div_mod::lemma_fundamental_div_mod(n as int, 256);
        }
        let pn = c[0] as int * 256 + c[1] as int;
        assert(pn == n);
        assert(pn != 0);
        let stored = spec_stored_pairs(c, pn);
        assert(stored =~= order) by {
            assert forall|i: int| 0 <= i < n implies stored[i] == order[i] by {
                assert(c[2 + 2 * i] == hd[2 + 2 * i]);
                assert(c[3 + 2 * i] == hd[2 + 2 * i + 1]);
                assert(hd[2 + 2 * i] == header_pairs(order)[2 * i]);
                assert(hd[2 + 2 * i + 1] == header_pairs(order)[2 * i + 1]);
                assert(header_pairs(order)[2 * i] == order[i].byte);
                assert(header_pairs(order)[2 * i + 1] == order[i].len);
            }
        }
        lemma_pair_error_none(order, n as int);
        assert(pair_error(stored, pn) is None);
        let payload = c.skip(2 + 2 * pn);
        assert(payload =~= packed);
        let bits = bytes_bits(packed);
        lemma_bytes_bits_pack_bits(pay);
        let pad = ((8 - pay.len() % 8) % 8) as nat;
        lemma_code_bits_zero(pad);
        assert(bits.len() == pay.len() + pad);
        assert(bits.subrange(0, pay.len() as int) =~= pay);
        lemma_decode_payload(bits, 0, order, input);
        assert(crate::huffman::decoder::spec_decode_n(bits, 0, order, input.len())
            == Ok::<(Seq<u8>, nat), CodecError>((input, pay.len())));
        lemma_pack_bits_len(pay);
        assert(packed.len() == (pay.len() + 7) / 8);
        assert(spec_decompress(c, input.len()) == Ok::<Seq<u8>, CodecError>(input));
    }
}


/// Determinism: what `compress` returns is a function of the input bytes
/// alone — its contract pins the output to `spec_compress` — so two runs on
/// equal inputs yield byte-identical output.
pub proof fn lemma_compress_deterministic(a: Seq<u8>, b: Seq<u8>)
    requires
        a == b,
    ensures
        spec_compress(a) == spec_compress(b),
{
}

/// Empty input: compressing nothing emits nothing, and decompressing nothing
/// into zero bytes yields nothing.
pub proof fn lemma_empty_round_trip()
    ensures
        spec_compress(Seq::<u8>::empty()) == Seq::<u8>::empty(),
        spec_decompress(Seq::<u8>::empty(), 0) == Ok::<Seq<u8>, CodecError>(Seq::<u8>::empty()),
{
    assert(spec_compress(Seq::<u8>::empty()) =~= Seq::<u8>::empty());
}

/// A single-symbol alphabet: `n` copies of one byte compress to a header with
/// one entry of length one, and a payload of `n` one bits, zero-padded.
pub proof fn lemma_single_symbol(input: Seq<u8>, b: u8)
    requires
        0 < input.len() <= u64::MAX,
        forall|k: int| 0 <= k < input.len() ==> input[k] == b,
    ensures
        spec_compress(input) == seq![0u8, 1u8, b, 1u8] + pack_bits(
            Seq::new(input.len(), |i: int| true),
        ),
{
    let hist = spec_histogram(input);
    lemma_count_occurrences_positive(input, 0);
    lemma_count_occurrences_le_len(input, b);
    assert(hist[b as int] > 0);
    assert forall|c: int| 0 <= c < 256 && c != b as int implies hist[c] == 0 by {
        lemma_count_all_equal(input, b, c as u8);
    }
    lemma_initial_nodes_single(hist, 256, b);
    let leaf = HuffmanNode::Leaf { byte: b, fequency: hist[b as int] };
    let init = initial_nodes(hist, 256);
    assert(init == seq![(leaf, b as u64)]);
    let tree = spec_tree(hist);
    assert(tree == leaf) by {
        assert(init.len() == 1);
        assert(init[0].0 == leaf);
    }
    let lens = spec_lengths(input);
    assert(lens =~= seq![CodeLength { byte: b, len: 0u8 }]);
    let order = spec_order(input);
    assert(order =~= seq![CodeLength { byte: b, len: 1u8 }]);
    let hd = spec_header(order);
    assert(hd =~= seq![0u8, 1u8, b, 1u8]) by {
        assert(header_pairs(order) =~= seq![b, 1u8]) by {
            assert(header_pairs(order.drop_last()) =~= Seq::<u8>::empty());
        }
        assert(order.len() / 256 == 0 && order.len() % 256 == 1);
    }
    lemma_all_ones_payload(input, b, order);
    assert(spec_compress(input) == hd + pack_bits(spec_payload_bits(input, order)));
}

/// With every count zero except `b`'s, the initial pending list is the one
/// leaf for `b`.
pub proof fn lemma_initial_nodes_single(counts: Seq<u64>, n: int, b: u8)
    requires
        0 <= n <= 256,
        (b as int) < n,
        counts[b as int] > 0,
        forall|c: int| 0 <= c < 256 && c != b as int ==> counts[c] == 0,
    ensures
        initial_nodes(counts, n) == seq![
            (HuffmanNode::Leaf { byte: b, fequency: counts[b as int] }, b as u64),
        ],
    decreases n,
{
    if b as int == n - 1 {
        lemma_initial_nodes_empty(counts, n - 1, b);
        assert(initial_nodes(counts, n) =~= seq![
            (HuffmanNode::Leaf { byte: b, fequency: counts[b as int] }, b as u64),
        ]);
    } else {
        lemma_initial_nodes_single(counts, n - 1, b);
        assert(initial_nodes(counts, n) =~= initial_nodes(counts, n - 1));
    }
}

/// With every count zero below `n`, the initial pending list is empty.
pub proof fn lemma_initial_nodes_empty(counts: Seq<u64>, n: int, b: u8)
    requires
        0 <= n <= 256,
        forall|c: int| 0 <= c < 256 && c != b as int ==> counts[c] == 0,
        b as int >= n,
    ensures
        initial_nodes(counts, n) == Seq::<(HuffmanNode, u64)>::empty(),
    decreases n,
{
    if n > 0 {
        lemma_initial_nodes_empty(counts, n - 1, b);
        assert(initial_nodes(counts, n) =~= initial_nodes(counts, n - 1));
    }
}

/// In an input of one repeated byte, every other byte has count zero.
pub proof fn lemma_count_all_equal(input: Seq<u8>, b: u8, c: u8)
    requires
        forall|k: int| 0 <= k < input.len() ==> input[k] == b,
        c != b,
    ensures
        count_occurrences(input, c) == 0,
    decreases input.len(),
{
    if input.len() > 0 {
        lemma_count_all_equal(input.drop_last(), b, c);
    }
}

/// The payload of a single-symbol input is one `1` bit per input byte.
pub proof fn lemma_all_ones_payload(input: Seq<u8>, b: u8, order: Seq<CodeLength>)
    requires
        forall|k: int| 0 <= k < input.len() ==> input[k] == b,
        order == seq![CodeLength { byte: b, len: 1u8 }],
    ensures
        spec_payload_bits(input, order) == Seq::new(input.len(), |i: int| true),
    decreases input.len(),
{
    if input.len() == 0 {
        assert(spec_payload_bits(input, order) =~= Seq::new(0, |i: int| true));
    } else {
        lemma_all_ones_payload(input.drop_last(), b, order);
        assert(sym_code_full(order, b) == Some(CodeEntry { bit_pattern: 1u64, len: 1u8 }));
        assert(1nat / 2 == 0 && 1nat % 2 == 1);
        assert(crate::huffman::bits::code_bits(0, 0) =~= Seq::<bool>::empty()) by {
            crate::huffman::bits::lemma_code_bits_len(0, 0);
        }
        assert(crate::huffman::bits::code_bits(1, 1) =~= seq![true]);
        assert(spec_payload_bits(input, order) =~= Seq::new(input.len(), |i: int| true));
    }
}

/// Header size: a nonempty input's output holds the two count bytes and one
/// `(symbol, length)` pair per distinct symbol before any payload.
pub proof fn lemma_header_size(input: Seq<u8>)
    requires
        0 < input.len() <= u64::MAX,
    ensures
        spec_order(input).len() >= 1,
        spec_compress(input).len() >= 1 + 2 * spec_order(input).len(),
{
    let order = spec_order(input);
    let hist = spec_histogram(input);
    lemma_count_occurrences_positive(input, 0);
    lemma_count_occurrences_le_len(input, input[0]);
    assert(hist[input[0] as int] > 0);
    lemma_initial_nodes_nonempty(hist, 256, input[0] as int);
    lemma_initial_nodes_leaves(hist, 256);
    lemma_merge_all_leaf_count(initial_nodes(hist, 256), 256);
    lemma_code_lengths_of_tree_len(spec_tree(hist));
    if spec_lengths(input).len() == 1 {
    } else {
        lemma_sort_lengths_ensures(spec_lengths(input), 63);
    }
    lemma_header_pairs_index(order);
    assert(spec_compress(input).len() == 2 + 2 * order.len() + pack_bits(
        spec_payload_bits(input, spec_order(input)),
    ).len());
}

/// The symbol/depth list has one entry per leaf, whatever the depth bound.
pub proof fn lemma_code_lengths_of_tree_len(t: HuffmanNode)
    ensures
        spec_code_lengths(t, 0).len() >= 1,
        spec_code_lengths(t, 0).len() == leaf_count(t),
{
    lemma_code_lengths_len_at(t, 0);
    lemma_height_lt_leaf_count(t);
}

pub proof fn lemma_code_lengths_len_at(t: HuffmanNode, d: nat)
    ensures
        spec_code_lengths(t, d).len() == leaf_count(t),
    decreases t,
{
    match t {
        HuffmanNode::Leaf { .. } => {},
        HuffmanNode::Internal { left, right, .. } => {
            lemma_code_lengths_len_at(*left, d + 1);
            lemma_code_lengths_len_at(*right, d + 1);
        },
    }
}


/// Each symbol occurs at most once in the header's sorted list.
pub proof fn lemma_order_distinct(input: Seq<u8>)
    requires
        0 < input.len() <= u64::MAX,
    ensures
        forall|b: u8| byte_count(spec_order(input), b) <= 1,
{
    let hist = spec_histogram(input);
    let tree = spec_tree(hist);
    let lens = spec_lengths(input);
    let order = spec_order(input);
    lemma_count_occurrences_positive(input, 0);
    lemma_count_occurrences_le_len(input, input[0]);
    assert(hist[input[0] as int] > 0);
    lemma_initial_nodes_nonempty(hist, 256, input[0] as int);
    assert forall|b: u8| byte_count(order, b) <= 1 by {
        lemma_merge_all_sym_count(initial_nodes(hist, 256), 256, b);
        lemma_initial_sym_count(hist, 256, b);
        lemma_code_lengths_sym_count(tree, 0, b);
        assert(byte_count(lens, b) <= 1);
        if lens.len() == 1 {
            assert(order =~= seq![CodeLength { byte: lens[0].byte, len: 1u8 }]);
            assert(order.drop_last() =~= Seq::<CodeLength>::empty());
            assert(byte_count(Seq::<CodeLength>::empty(), b) == 0);
        } else {
            lemma_sort_lengths_byte_count(lens, b);
        }
    }
}

/// Canonical ordering of the header: code lengths are non-decreasing in
/// stored order, and within one length the symbol values strictly increase;
/// the header bytes carry exactly that sorted list.
pub proof fn lemma_canonical_ordering(input: Seq<u8>)
    requires
        0 < input.len() <= u64::MAX,
    ensures
        forall|i: int, j: int|
            0 <= i < j < spec_order(input).len() ==> (#[trigger] spec_order(input)[i]).len <= (
            #[trigger] spec_order(input)[j]).len,
        forall|i: int, j: int|
            0 <= i < j < spec_order(input).len() && (#[trigger] spec_order(input)[i]).len == (
            #[trigger] spec_order(input)[j]).len ==> spec_order(input)[i].byte < spec_order(
                input,
            )[j].byte,
        spec_compress(input).len() >= 2 + 2 * spec_order(input).len(),
        forall|i: int|
            0 <= i < spec_order(input).len() ==> spec_compress(input)[2 + 2 * i] == (
            #[trigger] spec_order(input)[i]).byte && spec_compress(input)[3 + 2 * i] == spec_order(
                input,
            )[i].len,
{
    let order = spec_order(input);
    let lens = spec_lengths(input);
    lemma_order_distinct(input);
    if lens.len() != 1 {
        lemma_sort_lengths_ensures(lens, 63);
    }
    assert forall|i: int, j: int| 0 <= i < j < order.len() implies (#[trigger] order[i]).len <= (
    #[trigger] order[j]).len by {
        assert(code_le(order[i], order[j]));
    }
    assert forall|i: int, j: int|
        0 <= i < j < order.len() && (#[trigger] order[i]).len == (#[trigger] order[j]).len
        implies order[i].byte < order[j].byte by {
        assert(code_le(order[i], order[j]));
        if order[i].byte == order[j].byte {
            lemma_byte_count_two(order, i, j, order[i].byte);
        }
    }
    lemma_header_pairs_index(order);
    let hd = spec_header(order);
    assert(spec_compress(input) == hd + pack_bits(spec_payload_bits(input, order)));
    assert forall|i: int| 0 <= i < order.len() implies spec_compress(input)[2 + 2 * i] == (
    #[trigger] order[i]).byte && spec_compress(input)[3 + 2 * i] == order[i].len by {
        assert(hd[2 + 2 * i] == header_pairs(order)[2 * i]);
        assert(hd[2 + 2 * i + 1] == header_pairs(order)[2 * i + 1]);
        assert(spec_compress(input)[2 + 2 * i] == hd[2 + 2 * i]);
        assert(spec_compress(input)[3 + 2 * i] == hd[2 + 2 * i + 1]);
    }
}

} // verus!
