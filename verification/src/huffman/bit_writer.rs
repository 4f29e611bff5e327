//! Packs individual bits and short bit patterns into a byte vector.
//!
//! Bits accumulate most-significant-bit first in a partial byte; every eighth
//! bit completes a byte, which is appended to the output.  `flush` left-aligns
//! and zero-pads a final partial byte, as the container format requires.

use vstd::prelude::*;
use vstd::arithmetic::power2::*;
use vstd::arithmetic::div_mod::*;
use crate::huffman::bits::{
    bytes_bits, code_bits, pack_bits, lemma_bits_val_code_bits, lemma_bytes_bits_len,
    lemma_bytes_bits_push, lemma_code_bits_bits_val, lemma_code_bits_len, lemma_pack_bits_bytes,
};

verus! {

pub struct BitWriter {
    out: Vec<u8>,
    byte_buffer: u8,
    bits_filled: u8,
}

impl BitWriter {
    /// The partial byte never holds a full eight bits, and only its low
    /// `bits_filled` bits may be set.
    pub closed spec fn wf(&self) -> bool {
        &&& self.bits_filled < 8
        &&& (self.byte_buffer as nat) < pow2(self.bits_filled as nat)
    }

    /// All bits written so far, in order.
    pub closed spec fn bits(&self) -> Seq<bool> {
        bytes_bits(self.out@) + code_bits(self.byte_buffer as nat, self.bits_filled as nat)
    }

    /// The bytes emitted so far.
    pub closed spec fn emitted(&self) -> Seq<u8> {
        self.out@
    }

    pub fn new() -> (w: BitWriter)
        ensures
            w.wf(),
            w.bits() == Seq::<bool>::empty(),
            w.emitted() == Seq::<u8>::empty(),
    {
        let w = BitWriter { out: Vec::new(), byte_buffer: 0, bits_filled: 0 };
        proof {
            lemma_pow2_pos(0);
            assert(w.bits() =~= Seq::<bool>::empty());
        }
        w
    }

    /// Gives up the writer and hands back the bytes emitted so far.
    pub fn into_inner(self) -> (r: Vec<u8>)
        ensures
            r@ == self.emitted(),
    {
        self.out
    }

    pub fn write_bit(&mut self, bit: bool)
        requires
            old(self).wf(),
        ensures
            final(self).wf(),
            final(self).bits() == old(self).bits().push(bit),
            final(self).bits().len() == old(self).bits().len() + 1,
    {
        proof {
            lemma2_to64();
            lemma_pow2_strictly_increases(old(self).bits_filled as nat, 8);
            assert(self.byte_buffer < 128) by {
                if self.bits_filled as nat + 1 < 8 {
                    lemma_pow2_strictly_increases(self.bits_filled as nat, 7);
                } else {
                    assert(self.bits_filled == 7);
                }
            }
        }
        let b: u8 = if bit {
            1
        } else {
            0
        };
        let ghost prev = *self;
        self.byte_buffer = self.byte_buffer * 2 + b;
        self.bits_filled = self.bits_filled + 1;
        proof {
            lemma_fundamental_div_mod_converse(
                self.byte_buffer as int,
                2,
                prev.byte_buffer as int,
                b as int,
            );
            assert(code_bits(self.byte_buffer as nat, self.bits_filled as nat) == code_bits(
                prev.byte_buffer as nat,
                prev.bits_filled as nat,
            ).push(bit));
            lemma_pow2_unfold(self.bits_filled as nat);
            assert((self.byte_buffer as nat) < pow2(self.bits_filled as nat));
            lemma_code_bits_len(prev.byte_buffer as nat, prev.bits_filled as nat);
        }
        if self.bits_filled == 8 {
            let full = self.byte_buffer;
            self.out.push(full);
            self.byte_buffer = 0;
            self.bits_filled = 0;
            proof {
                lemma_bytes_bits_push(prev.out@, full);
                lemma_pow2_pos(0);
                assert(code_bits(0, 0) =~= Seq::<bool>::empty());
                assert(self.bits() =~= prev.bits().push(bit)) by {
                    lemma_code_bits_len(full as nat, 8);
                    lemma_bytes_bits_len(prev.out@);
                }
            }
        } else {
            proof {
                assert(self.bits() =~= prev.bits().push(bit)) by {
                    lemma_code_bits_len(prev.byte_buffer as nat, prev.bits_filled as nat);
                    lemma_bytes_bits_len(prev.out@);
                }
            }
        }
    }

    /// Writes the low `length` bits of `bits`, most significant first.
    pub fn write_bits(&mut self, bits: u64, length: u8)
        requires
            old(self).wf(),
            length <= 64,
        ensures
            final(self).wf(),
            final(self).bits() == old(self).bits() + code_bits(bits as nat, length as nat),
            final(self).bits().len() == old(self).bits().len() + length,
    {
        proof {
            lemma_code_bits_len(bits as nat, length as nat);
        }
        if length == 0 {
            proof {
                assert(old(self).bits() + code_bits(bits as nat, 0) =~= old(self).bits());
            }
            return ;
        }
        let ghost start = old(self).bits();
        proof {
            assert(code_bits((bits as nat) / pow2(length as nat), 0) =~= Seq::<bool>::empty()) by {
                lemma_code_bits_len((bits as nat) / pow2(length as nat), 0);
            }
            assert(start + Seq::<bool>::empty() =~= start);
        }
        let mut i: u8 = 1;
        while i <= length
            invariant
                1 <= i <= length + 1,
                length <= 64,
                self.wf(),
                self.bits() == start + code_bits(
                    (bits as nat) / pow2((length - i + 1) as nat),
                    (i - 1) as nat,
                ),
            decreases length + 1 - i,
        {
            let e: u8 = length - i;
            let p = pow2_u64(e);
            let b: bool = (bits / p) % 2 == 1;
            proof {
                let q = (bits as nat) / pow2(e as nat);
                lemma_pow2_pos(e as nat);
                lemma_pow2_unfold((e + 1) as nat);
                lemma_div_denominator(bits as int, pow2(e as nat) as int, 2);
                assert(q / 2 == (bits as nat) / pow2((e + 1) as nat));
                assert(code_bits(q, i as nat) == code_bits(q / 2, (i - 1) as nat).push(
                    q % 2 == 1,
                ));
                lemma_code_bits_len(q / 2, (i - 1) as nat);
            }
            self.write_bit(b);
            proof {
                assert(self.bits() =~= start + code_bits(
                    (bits as nat) / pow2((length - i) as nat),
                    i as nat,
                ));
            }
            i = i + 1;
        }
        proof {
            lemma_pow2(0);
            vstd::arithmetic::power::lemma_pow0(2);
            assert((bits as nat) / pow2(0) == bits as nat) by {
                lemma_div_basics(bits as int);
            }
        }
    }

    /// Emits a final zero-padded byte if a partial byte is pending; afterwards
    /// the emitted bytes are exactly the packed form of every bit written.
    pub fn flush(&mut self)
        requires
            old(self).wf(),
        ensures
            final(self).wf(),
            final(self).emitted() == pack_bits(old(self).bits()),
            final(self).bits() == bytes_bits(final(self).emitted()),
    {
        proof {
            lemma_code_bits_len(old(self).byte_buffer as nat, old(self).bits_filled as nat);
            lemma_bytes_bits_len(old(self).out@);
        }
        if self.bits_filled > 0 {
            let ghost prev = *self;
            let pad: u8 = 8 - self.bits_filled;
            let shift = pow2_u64(pad) as u8;
            proof {
                lemma_pow2_adds(self.bits_filled as nat, pad as nat);
                lemma2_to64();
                assert((self.byte_buffer as nat) * pow2(pad as nat) < pow2(8)) by {
                    lemma_pow2_pos(pad as nat);
                    vstd::arithmetic::mul::lemma_mul_strict_inequality(
                        self.byte_buffer as int,
                        pow2(self.bits_filled as nat) as int,
                        pow2(pad as nat) as int,
                    );
                }
            }
            let padded: u8 = self.byte_buffer * shift;
            self.out.push(padded);
            self.byte_buffer = 0;
            self.bits_filled = 0;
            proof {
                lemma_pow2_pos(0);
                let partial = code_bits(prev.byte_buffer as nat, prev.bits_filled as nat);
                lemma_pack_bits_bytes(prev.out@, partial);
                lemma_bits_val_code_bits(prev.byte_buffer as nat, prev.bits_filled as nat);
                lemma_code_bits_bits_val(partial);
                assert(pack_bits(partial) == seq![padded]);
                assert(self.out@ =~= prev.out@ + seq![padded]);
                assert(self.emitted() == pack_bits(prev.bits()));
                assert(code_bits(0, 0) =~= Seq::<bool>::empty());
                assert(self.bits() =~= bytes_bits(self.emitted()));
            }
        } else {
            proof {
                lemma_pow2_pos(0);
                let partial = code_bits(old(self).byte_buffer as nat, 0);
                assert(partial =~= Seq::<bool>::empty());
                assert(old(self).bits() =~= bytes_bits(old(self).out@));
                lemma_pack_bits_bytes(old(self).out@, Seq::<bool>::empty());
                assert(bytes_bits(old(self).out@) + Seq::<bool>::empty() =~= bytes_bits(
                    old(self).out@,
                ));
                assert(pack_bits(Seq::<bool>::empty()) =~= Seq::<u8>::empty());
                assert(old(self).out@ + Seq::<u8>::empty() =~= old(self).out@);
                assert(self.bits() =~= bytes_bits(self.emitted()));
            }
        }
    }
}

/// Computes `pow2(e)` for exponents that fit in a machine word.
pub fn pow2_u64(e: u8) -> (r: u64)
    requires
        e < 64,
    ensures
        r as nat == pow2(e as nat),
        r >= 1,
{
    proof {
        lemma_pow2(0);
        vstd::arithmetic::power::lemma_pow0(2);
    }
    let mut r: u64 = 1;
    let mut i: u8 = 0;
    while i < e
        invariant
            i <= e < 64,
            r as nat == pow2(i as nat),
            r >= 1,
        decreases e - i,
    {
        proof {
            lemma_pow2_unfold((i + 1) as nat);
            assert(pow2((i + 1) as nat) <= pow2(63)) by {
                if i + 1 < 63 {
                    lemma_pow2_strictly_increases((i + 1) as nat, 63);
                }
            }
            lemma2_to64_rest();
        }
        r = r * 2;
        i = i + 1;
    }
    r
}

} // verus!
