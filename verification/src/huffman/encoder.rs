//! The encode driver: header framing and the bit-packed payload.
//!
//! The header holds the number of distinct symbols as a big-endian two-byte
//! count, then each symbol and its code length in `(length, symbol)`-sorted
//! order.  The payload is every input byte's canonical code, written
//! most-significant-bit first and zero-padded to a whole byte.

use vstd::prelude::*;
use crate::huffman::bit_writer::BitWriter;
use crate::huffman::bits::{
    bytes_bits, code_bits, pack_bits, lemma_bytes_bits_concat, lemma_bytes_bits_two,
};
use crate::huffman::byte_map::{ByteMap, CodeEntry, CodeLength, sym_code_full};

verus! {

/// The `(symbol, length)` pairs of the header, in stored order.
pub open spec fn header_pairs(order: Seq<CodeLength>) -> Seq<u8>
    decreases order.len(),
{
    if order.len() == 0 {
        Seq::empty()
    } else {
        header_pairs(order.drop_last()) + seq![order.last().byte, order.last().len]
    }
}

/// The whole header: the symbol count, big-endian, then the pairs.
pub open spec fn spec_header(order: Seq<CodeLength>) -> Seq<u8> {
    seq![(order.len() / 256) as u8, (order.len() % 256) as u8] + header_pairs(order)
}

/// The bits of one symbol's code, or nothing for a symbol without one.
pub open spec fn code_bits_of(e: Option<CodeEntry>) -> Seq<bool> {
    match e {
        Some(c) => code_bits(c.bit_pattern as nat, c.len as nat),
        None => Seq::empty(),
    }
}

/// The payload bits: each input byte's canonical code, in input order.
pub open spec fn spec_payload_bits(input: Seq<u8>, order: Seq<CodeLength>) -> Seq<bool>
    decreases input.len(),
{
    if input.len() == 0 {
        Seq::empty()
    } else {
        spec_payload_bits(input.drop_last(), order) + code_bits_of(
            sym_code_full(order, input.last()),
        )
    }
}

/// The header pairs hold each symbol and its length at consecutive indices.
pub proof fn lemma_header_pairs_index(order: Seq<CodeLength>)
    ensures
        header_pairs(order).len() == 2 * order.len(),
        forall|i: int|
            0 <= i < order.len() ==> header_pairs(order)[2 * i] == (#[trigger] order[i]).byte
                && header_pairs(order)[2 * i + 1] == order[i].len,
    decreases order.len(),
{
    if order.len() > 0 {
        lemma_header_pairs_index(order.drop_last());
        let hp = header_pairs(order);
        let hq = header_pairs(order.drop_last());
        assert forall|i: int|
            0 <= i < order.len() implies hp[2 * i] == (#[trigger] order[i]).byte && hp[2 * i + 1]
            == order[i].len by {
            if i < order.len() - 1 {
                assert(order.drop_last()[i] == order[i]);
                assert(hp[2 * i] == hq[2 * i] && hp[2 * i + 1] == hq[2 * i + 1]);
            } else {
                assert(hp[2 * i] == seq![order.last().byte, order.last().len][0]);
                assert(hp[2 * i + 1] == seq![order.last().byte, order.last().len][1]);
            }
        }
    }
}

/// The payload starts with the first symbol's code.
pub proof fn lemma_payload_bits_front(input: Seq<u8>, order: Seq<CodeLength>)
    requires
        input.len() > 0,
    ensures
        spec_payload_bits(input, order) == code_bits_of(sym_code_full(order, input[0]))
            + spec_payload_bits(input.drop_first(), order),
    decreases input.len(),
{
    if input.len() == 1 {
        assert(input.drop_last() =~= Seq::<u8>::empty());
        assert(input.drop_first() =~= Seq::<u8>::empty());
        assert(spec_payload_bits(input, order) == spec_payload_bits(Seq::<u8>::empty(), order)
            + code_bits_of(sym_code_full(order, input[0])));
        assert(Seq::<bool>::empty() + code_bits_of(sym_code_full(order, input[0]))
            =~= code_bits_of(sym_code_full(order, input[0])) + Seq::<bool>::empty());
    } else {
        let head = input.drop_last();
        lemma_payload_bits_front(head, order);
        assert(head[0] == input[0]);
        assert(head.drop_first() =~= input.drop_first().drop_last());
        assert(input.drop_first().last() == input.last());
        assert(spec_payload_bits(input.drop_first(), order) == spec_payload_bits(
            input.drop_first().drop_last(),
            order,
        ) + code_bits_of(sym_code_full(order, input.last())));
        assert(spec_payload_bits(input, order) == (code_bits_of(sym_code_full(order, input[0]))
            + spec_payload_bits(head.drop_first(), order)) + code_bits_of(
            sym_code_full(order, input.last()),
        ));
        assert((code_bits_of(sym_code_full(order, input[0])) + spec_payload_bits(
            head.drop_first(),
            order,
        )) + code_bits_of(sym_code_full(order, input.last())) =~= code_bits_of(
            sym_code_full(order, input[0]),
        ) + (spec_payload_bits(input.drop_first().drop_last(), order) + code_bits_of(
            sym_code_full(order, input.last()),
        )));
    }
}

/// Streams one input through one code table into one bit writer.
pub struct Encoder<'a> {
    input: &'a Vec<u8>,
    byte_map: &'a ByteMap,
}

impl<'a> Encoder<'a> {
    pub closed spec fn input(&self) -> Seq<u8> {
        self.input@
    }

    pub closed spec fn map(&self) -> ByteMap {
        *self.byte_map
    }

    pub fn new(input: &'a Vec<u8>, byte_map: &'a ByteMap) -> (e: Encoder<'a>)
        ensures
            e.input() == input@,
            e.map() == *byte_map,
    {
        Encoder { input, byte_map }
    }

    /// Writes the header, then the payload, and flushes.
    pub fn encode(self, writer: &mut BitWriter)
        requires
            old(writer).wf(),
            self.map().wf(),
            self.map().order().len() < 65536,
            forall|k: int|
                0 <= k < self.input().len() ==> (#[trigger] self.map().entry(
                    self.input()[k],
                )).is_some(),
            forall|b: u8| #[trigger] self.map().entry(b) == sym_code_full(self.map().order(), b),
            forall|b: u8| #[trigger] self.map().entry(b) matches Some(e) ==> e.len <= 64,
        ensures
            final(writer).wf(),
            final(writer).emitted() == pack_bits(
                old(writer).bits() + bytes_bits(spec_header(self.map().order()))
                    + spec_payload_bits(self.input(), self.map().order()),
            ),
    {
        self.encode_codes(writer);
        self.encode_data(writer);
    }

    /// Writes the symbol count and the `(symbol, length)` pairs.
    pub fn encode_codes(&self, writer: &mut BitWriter)
        requires
            old(writer).wf(),
            self.map().wf(),
            self.map().order().len() < 65536,
        ensures
            final(writer).wf(),
            final(writer).bits() == old(writer).bits() + bytes_bits(
                spec_header(self.map().order()),
            ),
    {
        let ghost start = old(writer).bits();
        let ghost order = self.map().order();
        let n = self.byte_map.order_len();
        let count = n as u16;
        let hi = (count / 256) as u8;
        let lo = (count % 256) as u8;
        writer.write_bits(hi as u64, 8);
        writer.write_bits(lo as u64, 8);
        proof {
            lemma_bytes_bits_two(hi, lo);
            assert(start + code_bits(hi as nat, 8) + code_bits(lo as nat, 8) =~= start
                + bytes_bits(seq![hi, lo]));
            assert(header_pairs(order.take(0)) =~= Seq::<u8>::empty());
            assert(bytes_bits(Seq::<u8>::empty()) =~= Seq::<bool>::empty());
            assert(writer.bits() =~= start + bytes_bits(seq![hi, lo]) + bytes_bits(
                header_pairs(order.take(0)),
            ));
        }
        let mut i: usize = 0;
        while i < n
            invariant
                i <= n == order.len(),
                self.map().wf(),
                order == self.map().order(),
                writer.wf(),
                writer.bits() == start + bytes_bits(seq![hi, lo]) + bytes_bits(
                    header_pairs(order.take(i as int)),
                ),
            decreases n - i,
        {
            let cl = self.byte_map.order_at(i);
            writer.write_bits(cl.byte as u64, 8);
            writer.write_bits(cl.len as u64, 8);
            proof {
                assert(order.take(i as int + 1).drop_last() =~= order.take(i as int));
                assert(order.take(i as int + 1).last() == order[i as int]);
                assert(header_pairs(order.take(i as int + 1)) == header_pairs(order.take(i as int))
                    + seq![cl.byte, cl.len]);
                lemma_bytes_bits_concat(header_pairs(order.take(i as int)), seq![cl.byte, cl.len]);
                lemma_bytes_bits_two(cl.byte, cl.len);
                assert(writer.bits() =~= start + bytes_bits(seq![hi, lo]) + bytes_bits(
                    header_pairs(order.take(i as int + 1)),
                ));
            }
            i = i + 1;
        }
        proof {
            assert(order.take(n as int) =~= order);
            lemma_bytes_bits_concat(seq![hi, lo], header_pairs(order));
            assert(seq![hi, lo] + header_pairs(order) =~= spec_header(order)) by {
                assert(hi as nat == order.len() / 256 && lo as nat == order.len() % 256);
            }
            assert(writer.bits() =~= start + bytes_bits(spec_header(order)));
        }
    }

    /// Writes each input byte's code, then flushes the final partial byte.
    pub fn encode_data(&self, writer: &mut BitWriter)
        requires
            old(writer).wf(),
            self.map().wf(),
            forall|k: int|
                0 <= k < self.input().len() ==> (#[trigger] self.map().entry(
                    self.input()[k],
                )).is_some(),
            forall|b: u8| #[trigger] self.map().entry(b) == sym_code_full(self.map().order(), b),
            forall|b: u8| #[trigger] self.map().entry(b) matches Some(e) ==> e.len <= 64,
        ensures
            final(writer).wf(),
            final(writer).emitted() == pack_bits(
                old(writer).bits() + spec_payload_bits(self.input(), self.map().order()),
            ),
    {
        let ghost start = old(writer).bits();
        let ghost order = self.map().order();
        let ghost input = self.input();
        let n = self.input.len();
        proof {
            assert(spec_payload_bits(input.take(0), order) =~= Seq::<bool>::empty());
            assert(writer.bits() =~= start + spec_payload_bits(input.take(0), order));
        }
        let mut k: usize = 0;
        while k < n
            invariant
                k <= n == input.len(),
                input == self.input(),
                order == self.map().order(),
                self.map().wf(),
                forall|j: int|
                    0 <= j < input.len() ==> (#[trigger] self.map().entry(input[j])).is_some(),
                forall|b: u8| #[trigger] self.map().entry(b) == sym_code_full(order, b),
                forall|b: u8| #[trigger] self.map().entry(b) matches Some(e) ==> e.len <= 64,
                writer.wf(),
                writer.bits() == start + spec_payload_bits(input.take(k as int), order),
            decreases n - k,
        {
            let b = self.input[k];
            let e = self.byte_map.get(b).unwrap();
            writer.write_bits(e.bit_pattern, e.len);
            proof {
                assert(input.take(k as int + 1).drop_last() =~= input.take(k as int));
                assert(input.take(k as int + 1).last() == b);
                assert(code_bits_of(sym_code_full(order, b)) == code_bits(
                    e.bit_pattern as nat,
                    e.len as nat,
                ));
                assert(writer.bits() =~= start + spec_payload_bits(input.take(k as int + 1), order));
            }
            k = k + 1;
        }
        proof {
            assert(input.take(n as int) =~= input);
        }
        writer.flush();
    }
}

impl ByteMap {
    /// Encodes `input` through this table into `output`: header, payload,
    /// and final flush.
    pub fn encode(&self, input: &Vec<u8>, output: &mut BitWriter)
        requires
            old(output).wf(),
            self.wf(),
            self.order().len() < 65536,
            forall|k: int| 0 <= k < input@.len() ==> (#[trigger] self.entry(input@[k])).is_some(),
            forall|b: u8| #[trigger] self.entry(b) == sym_code_full(self.order(), b),
            forall|b: u8| #[trigger] self.entry(b) matches Some(e) ==> e.len <= 64,
        ensures
            final(output).wf(),
            final(output).emitted() == pack_bits(
                old(output).bits() + bytes_bits(spec_header(self.order())) + spec_payload_bits(
                    input@,
                    self.order(),
                ),
            ),
    {
        let encoder = Encoder::new(input, self);
        encoder.encode(output)
    }
}

} // verus!
