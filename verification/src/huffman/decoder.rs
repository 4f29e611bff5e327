//! The decode driver: header parsing, canonical table rebuild, and bit-level
//! decoding.
//!
//! The decoder reads the symbol count and the stored `(symbol, length)`
//! pairs, rebuilds the canonical codes from the lengths alone by the same
//! assignment rule the encoder used, and then consumes payload bits most
//! significant first, accumulating a pattern until it equals some symbol's
//! code.  The caller supplies the number of bytes to emit: the container
//! format records code lengths only, so the output length arrives out of
//! band, and the zero padding of the final byte is never read as data.

use vstd::prelude::*;
use vstd::arithmetic::power2::{
    pow2, lemma_pow2_adds, lemma_pow2_pos, lemma_pow2_strictly_increases, lemma2_to64,
    lemma2_to64_rest,
};
use vstd::arithmetic::div_mod::{lemma_div_by_multiple, lemma_div_is_ordered};
use vstd::arithmetic::mul::{
    lemma_mul_inequality_converse, lemma_mul_is_associative, lemma_mul_is_distributive_add_other_way,
};
use crate::huffman::bit_writer::pow2_u64;
use crate::huffman::bits::{
    bits_val, bytes_bits, code_bits, lemma_bits_val_bound, lemma_bits_val_code_bits,
    lemma_bytes_bits_index, lemma_bytes_bits_len, lemma_code_bits_len, lemma_code_bits_take,
};
use crate::huffman::byte_map::{
    canon_entries, canon_next, canon_pattern, canon_shift, kraft_sum, lemma_canon_pattern_fits,
    lemma_canon_state, lemma_kraft_prefix, lemma_kraft_take_step, lemma_sym_code_full_entry,
    len_sorted, lens_ok, sym_code_full, CodeEntry, CodeLength,
};
use crate::huffman::encoder::{code_bits_of, lemma_payload_bits_front, spec_payload_bits};
use crate::huffman::CodecError;

verus! {

/// A rebuilt code table is usable when its lengths could have come from the
/// canonical encoder: a single forced entry, or in-range sorted lengths whose
/// Kraft sum does not exceed one.
pub open spec fn table_ok(stored: Seq<CodeLength>) -> bool {
    stored.len() == 1 || (len_sorted(stored) && lens_ok(stored, 63) && kraft_sum(stored, 63)
        <= pow2(63))
}

/// The first entry from index `i` on whose code is exactly `(p, l)`.
pub open spec fn find_code(stored: Seq<CodeLength>, i: int, p: nat, l: nat) -> Option<u8>
    decreases stored.len() - i,
{
    if i < 0 || i >= stored.len() {
        None
    } else if canon_entries(stored)[i].len as nat == l && canon_entries(stored)[i].bit_pattern
        as nat == p {
        Some(stored[i].byte)
    } else {
        find_code(stored, i + 1, p, l)
    }
}

/// One symbol decoded from `bits` at cursor `k`, having already accumulated
/// `l` bits without a match: keep appending bits until the accumulated
/// pattern is some entry's code.
pub open spec fn spec_decode_one(bits: Seq<bool>, k: nat, stored: Seq<CodeLength>, l: nat) -> Result<
    (u8, nat),
    CodecError,
>
    decreases 64 - l,
{
    if l >= 64 {
        Err(CodecError::CorruptData)
    } else if k + l >= bits.len() {
        Err(CodecError::CorruptData)
    } else {
        let p = bits_val(bits.subrange(k as int, (k + l + 1) as int));
        match find_code(stored, 0, p, l + 1) {
            Some(b) => Ok((b, (k + l + 1) as nat)),
            None => spec_decode_one(bits, k, stored, l + 1),
        }
    }
}

/// `count` symbols decoded from `bits` starting at cursor `k`, with the
/// cursor after the last one.
pub open spec fn spec_decode_n(bits: Seq<bool>, k: nat, stored: Seq<CodeLength>, count: nat) -> Result<
    (Seq<u8>, nat),
    CodecError,
>
    decreases count,
{
    if count == 0 {
        Ok((Seq::empty(), k))
    } else {
        match spec_decode_one(bits, k, stored, 0) {
            Err(e) => Err(e),
            Ok((b, k1)) => match spec_decode_n(bits, k1, stored, (count - 1) as nat) {
                Err(e) => Err(e),
                Ok((rest, kf)) => Ok((seq![b] + rest, kf)),
            },
        }
    }
}

/// The first malformation among the stored pairs `[0, i)`: a zero length is
/// corrupt, a length over 63 bits is unsupported, and lengths out of
/// non-decreasing order are corrupt.
pub open spec fn pair_error(stored: Seq<CodeLength>, i: int) -> Option<CodecError>
    decreases i,
{
    if i <= 0 {
        None
    } else {
        match pair_error(stored, i - 1) {
            Some(e) => Some(e),
            None => {
                if stored[i - 1].len == 0 {
                    Some(CodecError::CorruptData)
                } else if stored[i - 1].len > 63 {
                    Some(CodecError::CodeTooLong)
                } else if i - 1 > 0 && stored[i - 2].len > stored[i - 1].len {
                    Some(CodecError::CorruptData)
                } else {
                    None
                }
            },
        }
    }
}

/// The stored pairs of a container whose count field reads `n`.
pub open spec fn spec_stored_pairs(input: Seq<u8>, n: int) -> Seq<CodeLength> {
    Seq::new(n as nat, |i: int| CodeLength { byte: input[2 + 2 * i], len: input[3 + 2 * i] })
}

/// What `decompress` returns: the container parsed, validated and decoded
/// into exactly `count` bytes.
pub open spec fn spec_decompress(input: Seq<u8>, count: nat) -> Result<Seq<u8>, CodecError> {
    if input.len() == 0 {
        if count == 0 {
            Ok(Seq::empty())
        } else {
            Err(CodecError::CorruptData)
        }
    } else if input.len() < 2 {
        Err(CodecError::CorruptData)
    } else {
        let n = input[0] as int * 256 + input[1] as int;
        if n == 0 {
            Err(CodecError::CorruptData)
        } else if input.len() < 2 + 2 * n {
            Err(CodecError::CorruptData)
        } else {
            let stored = spec_stored_pairs(input, n);
            match pair_error(stored, n) {
                Some(e) => Err(e),
                None => {
                    if kraft_sum(stored, 63) > pow2(63) {
                        Err(CodecError::CorruptData)
                    } else {
                        let payload = input.skip(2 + 2 * n);
                        match spec_decode_n(bytes_bits(payload), 0, stored, count) {
                            Err(e) => Err(e),
                            Ok((syms, kf)) => {
                                if (kf + 7) / 8 == payload.len() {
                                    Ok(syms)
                                } else {
                                    Err(CodecError::CorruptData)
                                }
                            },
                        }
                    }
                },
            }
        }
    }
}

/// Pairs that pass validation have in-range, non-decreasing lengths.
pub proof fn lemma_pair_error_ok(stored: Seq<CodeLength>, i: int)
    requires
        0 <= i <= stored.len(),
        pair_error(stored, i) is None,
    ensures
        forall|m: int| 0 <= m < i ==> 1 <= (#[trigger] stored[m]).len <= 63,
        forall|m: int, p: int| 0 <= m <= p < i ==> (#[trigger] stored[m]).len <= (
        #[trigger] stored[p]).len,
    decreases i,
{
    if i > 0 {
        lemma_pair_error_ok(stored, i - 1);
        assert forall|m: int, p: int| 0 <= m <= p < i implies (#[trigger] stored[m]).len <= (
        #[trigger] stored[p]).len by {
            if p == i - 1 && m < p {
                assert(stored[i - 2].len <= stored[i - 1].len);
            }
        }
    }
}

/// In-range, non-decreasing lengths pass validation.
pub proof fn lemma_pair_error_none(stored: Seq<CodeLength>, i: int)
    requires
        0 <= i <= stored.len(),
        forall|m: int| 0 <= m < i ==> 1 <= (#[trigger] stored[m]).len <= 63,
        forall|m: int, p: int| 0 <= m <= p < i ==> (#[trigger] stored[m]).len <= (
        #[trigger] stored[p]).len,
    ensures
        pair_error(stored, i) is None,
    decreases i,
{
    if i > 0 {
        lemma_pair_error_none(stored, i - 1);
    }
}

/// A malformation among the first `i` pairs stays a malformation of the whole
/// list.
pub proof fn lemma_pair_error_propagates(stored: Seq<CodeLength>, i: int, n: int)
    requires
        0 <= i <= n,
        pair_error(stored, i) is Some,
    ensures
        pair_error(stored, n) == pair_error(stored, i),
    decreases n - i,
{
    if i < n {
        lemma_pair_error_propagates(stored, i + 1, n);
    }
}

/// The Kraft sum of a shorter prefix never exceeds a longer one's.
pub proof fn lemma_kraft_take_le(s: Seq<CodeLength>, a: int, b: int, cap: nat)
    requires
        0 <= a <= b <= s.len(),
    ensures
        kraft_sum(s.take(a), cap) <= kraft_sum(s.take(b), cap),
    decreases b - a,
{
    if a < b {
        lemma_kraft_take_le(s, a + 1, b, cap);
        lemma_kraft_take_step(s, a, cap);
    }
}

/// Canonical patterns grow strictly along the sorted list, scaled by the
/// length difference: entry `j`'s pattern is at least one past entry `i`'s,
/// shifted out to `j`'s length.
pub proof fn lemma_canon_monotone(s: Seq<CodeLength>, i: int, j: int, cap: nat)
    requires
        len_sorted(s),
        lens_ok(s, cap),
        kraft_sum(s, cap) <= pow2(cap),
        0 <= i < j < s.len(),
    ensures
        canon_pattern(s, j) >= (canon_pattern(s, i) + 1) * pow2(
            (s[j].len - s[i].len) as nat,
        ),
{
    lemma_canon_pattern_fits(s, i, cap);
    lemma_canon_pattern_fits(s, j, cap);
    let li = s[i].len as nat;
    let lj = s[j].len as nat;
    assert(li <= lj);
    let pi = canon_pattern(s, i);
    let pj = canon_pattern(s, j);
    lemma_kraft_take_step(s, i, cap);
    lemma_kraft_take_le(s, i + 1, j, cap);
    assert(pj * pow2((cap - lj) as nat) >= (pi + 1) * pow2((cap - li) as nat)) by {
        assert(kraft_sum(s.take(i + 1), cap) == pi * pow2((cap - li) as nat) + pow2(
            (cap - li) as nat,
        ));
        lemma_mul_is_distributive_add_other_way(pow2((cap - li) as nat) as int, pi as int, 1);
    }
    let d = (lj - li) as nat;
    assert(pow2((cap - li) as nat) == pow2(d) * pow2((cap - lj) as nat)) by {
        lemma_pow2_adds(d, (cap - lj) as nat);
    }
    assert((pi + 1) * (pow2(d) * pow2((cap - lj) as nat)) == ((pi + 1) * pow2(d)) * pow2(
        (cap - lj) as nat,
    )) by {
        lemma_mul_is_associative((pi + 1) as int, pow2(d) as int, pow2((cap - lj) as nat) as int);
    }
    assert(pj >= (pi + 1) * pow2(d)) by {
        lemma_pow2_pos((cap - lj) as nat);
        lemma_mul_inequality_converse(
            ((pi + 1) * pow2(d)) as int,
            pj as int,
            pow2((cap - lj) as nat) as int,
        );
    }
}

/// The code table of a valid stored list: entry `i`'s pattern fits its
/// length, and its length is the stored length (or the forced single code).
pub proof fn lemma_table_entry(stored: Seq<CodeLength>, i: int)
    requires
        table_ok(stored),
        0 <= i < stored.len(),
    ensures
        (canon_entries(stored)[i].bit_pattern as nat) < pow2(canon_entries(stored)[i].len as nat),
        1 <= canon_entries(stored)[i].len <= 63,
        stored.len() != 1 ==> canon_entries(stored)[i] == (CodeEntry {
            bit_pattern: canon_pattern(stored, i) as u64,
            len: stored[i].len,
        }),
{
    if stored.len() == 1 {
        lemma2_to64();
        assert(canon_entries(stored)[0] == CodeEntry { bit_pattern: 1u64, len: 1u8 });
    } else {
        lemma_canon_pattern_fits(stored, i, 63);
        lemma2_to64_rest();
        if (stored[i].len as nat) < 64 {
            lemma_pow2_strictly_increases(stored[i].len as nat, 64);
        }
    }
}

/// No entry's code is a strict prefix of another's, and codes are unique: if
/// the stream continues with entry `i`'s code, the scan matches nothing
/// shorter and then matches exactly entry `i`'s symbol position.
pub proof fn lemma_no_other_match(stored: Seq<CodeLength>, i: int, p: nat, l: nat, m: int)
    requires
        table_ok(stored),
        0 <= i < stored.len(),
        0 <= m < stored.len(),
        1 <= l <= canon_entries(stored)[i].len as nat,
        p == canon_entries(stored)[i].bit_pattern as nat / pow2(
            (canon_entries(stored)[i].len - l) as nat,
        ),
        canon_entries(stored)[m].len as nat == l,
        l < canon_entries(stored)[i].len as nat || m != i,
    ensures
        canon_entries(stored)[m].bit_pattern as nat != p,
{
    if stored.len() == 1 {
        // only one entry: m == i and l == its length, excluded by the requires
        assert(false);
    } else {
        let ce = canon_entries(stored);
        let li = ce[i].len as nat;
        let lm = ce[m].len as nat;
        lemma_table_entry(stored, i);
        lemma_table_entry(stored, m);
        let pi = canon_pattern(stored, i);
        let pm = canon_pattern(stored, m);
        lemma_canon_pattern_fits(stored, i, 63);
        lemma_canon_pattern_fits(stored, m, 63);
        assert(pi < pow2(63) && pm < pow2(63)) by {
            if (stored[i].len as nat) < 63 {
                lemma_pow2_strictly_increases(stored[i].len as nat, 63);
            }
            if (stored[m].len as nat) < 63 {
                lemma_pow2_strictly_increases(stored[m].len as nat, 63);
            }
        }
        assert(pow2(63) < pow2(64)) by {
            lemma_pow2_strictly_increases(63, 64);
        }
        lemma2_to64_rest();
        assert(ce[i].bit_pattern as nat == pi);
        assert(ce[m].bit_pattern as nat == pm);
        assert(li == stored[i].len as nat && lm == stored[m].len as nat);
        if l < li {
            // a shorter entry m sits before i in the sorted list
            assert(m != i);
            assert(stored[m].len < stored[i].len);
            assert(m < i) by {
                if m > i {
                    assert(stored[i].len <= stored[m].len);
                }
            }
            lemma_canon_monotone(stored, m, i, 63);
            let d = (li - lm) as nat;
            assert(pi >= (pm + 1) * pow2(d));
            assert(pi / pow2(d) >= pm + 1) by {
                lemma_pow2_pos(d);
                lemma_div_by_multiple((pm + 1) as int, pow2(d) as int);
                lemma_div_is_ordered(((pm + 1) * pow2(d)) as int, pi as int, pow2(d) as int);
            }
            assert(p == pi / pow2(d));
            assert(p != pm);
            assert(canon_entries(stored)[m].bit_pattern as nat != p);
        } else {
            // same length: patterns are strictly increasing along the list
            assert(l == li && m != i);
            assert(p == pi) by {
                assert(pow2(0) == 1) by {
                    lemma2_to64();
                }
                vstd::arithmetic::div_mod::lemma_div_basics(pi as int);
            }
            if m < i {
                lemma_canon_monotone(stored, m, i, 63);
                assert(pow2(0) == 1) by {
                    lemma2_to64();
                }
                assert(pi >= (pm + 1) * pow2(0));
                assert((pm + 1) * 1 == pm + 1) by (nonlinear_arith);
                assert(p != pm);
            } else {
                lemma_canon_monotone(stored, i, m, 63);
                assert(pow2(0) == 1) by {
                    lemma2_to64();
                }
                assert(pm >= (pi + 1) * pow2(0));
                assert((pi + 1) * 1 == pi + 1) by (nonlinear_arith);
                assert(p != pm);
            }
            assert(canon_entries(stored)[m].bit_pattern as nat != p);
        }
    }
}

/// If no entry from `i` on matches `(p, l)`, the scan finds nothing.
pub proof fn lemma_find_code_none(stored: Seq<CodeLength>, i: int, p: nat, l: nat)
    requires
        forall|m: int|
            i <= m < stored.len() ==> !((#[trigger] canon_entries(stored)[m]).len as nat == l
                && canon_entries(stored)[m].bit_pattern as nat == p),
    ensures
        find_code(stored, i, p, l) is None,
    decreases stored.len() - i,
{
    if 0 <= i < stored.len() {
        lemma_find_code_none(stored, i + 1, p, l);
    }
}

/// If entry `j` is the only match for `(p, l)`, the scan finds it.
pub proof fn lemma_find_code_unique(stored: Seq<CodeLength>, i: int, j: int, p: nat, l: nat)
    requires
        0 <= i <= j < stored.len(),
        canon_entries(stored)[j].len as nat == l,
        canon_entries(stored)[j].bit_pattern as nat == p,
        forall|m: int|
            i <= m < stored.len() && m != j ==> !((#[trigger] canon_entries(stored)[m]).len as nat
                == l && canon_entries(stored)[m].bit_pattern as nat == p),
    ensures
        find_code(stored, i, p, l) == Some(stored[j].byte),
    decreases stored.len() - i,
{
    if i < j {
        lemma_find_code_unique(stored, i + 1, j, p, l);
    }
}

/// Decoding a stream that continues with entry `i`'s code word, having
/// already consumed `l` of its bits without a match, consumes the rest and
/// emits entry `i`'s symbol.
pub proof fn lemma_decode_one_code(
    bits: Seq<bool>,
    k: nat,
    stored: Seq<CodeLength>,
    i: int,
    l: nat,
)
    requires
        table_ok(stored),
        0 <= i < stored.len(),
        l < canon_entries(stored)[i].len as nat,
        k + canon_entries(stored)[i].len as nat <= bits.len(),
        bits.subrange(k as int, (k + canon_entries(stored)[i].len as nat) as int) == code_bits(
            canon_entries(stored)[i].bit_pattern as nat,
            canon_entries(stored)[i].len as nat,
        ),
    ensures
        spec_decode_one(bits, k, stored, l) == Ok::<(u8, nat), CodecError>(
            (stored[i].byte, k + canon_entries(stored)[i].len as nat),
        ),
    decreases canon_entries(stored)[i].len as nat - l,
{
    let ce = canon_entries(stored)[i];
    let li = ce.len as nat;
    let pi = ce.bit_pattern as nat;
    lemma_table_entry(stored, i);
    lemma_code_bits_len(pi, li);
    assert(l < 64);
    assert(k + l < bits.len());
    let l1 = l + 1;
    let p = bits_val(bits.subrange(k as int, (k + l1) as int));
    // the accumulated bits are the first l1 bits of the code word
    assert(bits.subrange(k as int, (k + l1) as int) == code_bits(pi, li).take(l1 as int)) by {
        assert(bits.subrange(k as int, (k + l1) as int) =~= bits.subrange(
            k as int,
            (k + li) as int,
        ).subrange(0, l1 as int));
        assert(code_bits(pi, li).take(l1 as int) =~= code_bits(pi, li).subrange(0, l1 as int));
    }
    lemma_code_bits_take(pi, li, l1);
    let ph = pi / pow2((li - l1) as nat);
    assert(p == ph) by {
        assert(ph < pow2(l1)) by {
            lemma_pow2_pos((li - l1) as nat);
            lemma_pow2_adds((li - l1) as nat, l1);
            vstd::arithmetic::div_mod::lemma_multiply_divide_lt(
                pi as int,
                pow2((li - l1) as nat) as int,
                pow2(l1) as int,
            );
        }
        lemma_bits_val_code_bits(ph, l1);
    }
    if l1 < li {
        // nothing matches a strict prefix of the code word
        assert forall|m: int| 0 <= m < stored.len() implies !((#[trigger] canon_entries(
            stored,
        )[m]).len as nat == l1 && canon_entries(stored)[m].bit_pattern as nat == p) by {
            if canon_entries(stored)[m].len as nat == l1 {
                lemma_no_other_match(stored, i, p, l1, m);
            }
        }
        lemma_find_code_none(stored, 0, p, l1);
        lemma_decode_one_code(bits, k, stored, i, l1);
    } else {
        // the whole code word is accumulated: only entry i matches
        assert(l1 == li);
        assert(p == pi) by {
            assert(pow2(0) == 1) by {
                lemma2_to64();
            }
            vstd::arithmetic::div_mod::lemma_div_basics(pi as int);
        }
        assert forall|m: int|
            0 <= m < stored.len() && m != i implies !((#[trigger] canon_entries(stored)[m]).len
                as nat == l1 && canon_entries(stored)[m].bit_pattern as nat == p) by {
            if canon_entries(stored)[m].len as nat == l1 {
                lemma_no_other_match(stored, i, p, l1, m);
            }
        }
        lemma_find_code_unique(stored, 0, i, p, l1);
    }
}

/// Decoding a stream whose next bits are the payload of `syms` recovers
/// exactly `syms` and leaves the cursor after the payload.
pub proof fn lemma_decode_payload(bits: Seq<bool>, k: nat, stored: Seq<CodeLength>, syms: Seq<u8>)
    requires
        table_ok(stored),
        forall|m: int| 0 <= m < syms.len() ==> sym_code_full(stored, #[trigger] syms[m]).is_some(),
        k + spec_payload_bits(syms, stored).len() <= bits.len(),
        bits.subrange(k as int, (k + spec_payload_bits(syms, stored).len()) as int)
            == spec_payload_bits(syms, stored),
    ensures
        spec_decode_n(bits, k, stored, syms.len()) == Ok::<(Seq<u8>, nat), CodecError>(
            (syms, (k + spec_payload_bits(syms, stored).len()) as nat),
        ),
    decreases syms.len(),
{
    let pb = spec_payload_bits(syms, stored);
    if syms.len() == 0 {
        assert(pb.len() == 0);
        assert(spec_decode_n(bits, k, stored, 0) == Ok::<(Seq<u8>, nat), CodecError>(
            (Seq::empty(), k),
        ));
        assert(syms =~= Seq::<u8>::empty());
    } else {
        lemma_payload_bits_front(syms, stored);
        let sc = sym_code_full(stored, syms[0]);
        assert(sc.is_some());
        let e = sc.unwrap();
        lemma_sym_code_full_entry(stored, syms[0], e);
        let j = choose|j: int|
            0 <= j < stored.len() && (#[trigger] stored[j]).byte == syms[0] && e == canon_entries(
                stored,
            )[j];
        let rest = syms.drop_first();
        let pbr = spec_payload_bits(rest, stored);
        assert(pb == code_bits_of(sc) + pbr);
        assert(code_bits_of(sc) == code_bits(e.bit_pattern as nat, e.len as nat));
        lemma_code_bits_len(e.bit_pattern as nat, e.len as nat);
        assert(pb.len() == e.len + pbr.len());
        assert(bits.subrange(k as int, (k + e.len as nat) as int) == code_bits(
            e.bit_pattern as nat,
            e.len as nat,
        )) by {
            assert(bits.subrange(k as int, (k + e.len as nat) as int) =~= bits.subrange(
                k as int,
                (k + pb.len()) as int,
            ).subrange(0, e.len as int));
            assert(pb.subrange(0, e.len as int) =~= code_bits_of(sc));
        }
        lemma_table_entry(stored, j);
        lemma_decode_one_code(bits, k, stored, j, 0);
        assert(spec_decode_one(bits, k, stored, 0) == Ok::<(u8, nat), CodecError>(
            (syms[0], (k + e.len as nat) as nat),
        ));
        let k1 = (k + e.len as nat) as nat;
        assert(bits.subrange(k1 as int, (k1 + pbr.len()) as int) == pbr) by {
            assert(bits.subrange(k1 as int, (k1 + pbr.len()) as int) =~= bits.subrange(
                k as int,
                (k + pb.len()) as int,
            ).subrange(e.len as int, pb.len() as int));
            assert(pb.subrange(e.len as int, pb.len() as int) =~= pbr);
        }
        lemma_decode_payload(bits, k1, stored, rest);
        assert(spec_decode_n(bits, k, stored, syms.len()) == Ok::<(Seq<u8>, nat), CodecError>(
            (seq![syms[0]] + rest, (k1 + pbr.len()) as nat),
        ));
        assert(seq![syms[0]] + rest =~= syms);
    }
}


/// Rebuilds the canonical code table from validated stored pairs, by the
/// same assignment rule the encoder used.
fn build_table(stored: &Vec<CodeLength>) -> (table: Vec<CodeEntry>)
    requires
        table_ok(stored@),
        1 <= stored@.len(),
    ensures
        table@ == canon_entries(stored@),
{
    let n = stored.len();
    let mut table: Vec<CodeEntry> = Vec::new();
    if n == 1 {
        table.push(CodeEntry { bit_pattern: 1, len: 1 });
        proof {
            assert(table@ =~= canon_entries(stored@));
        }
        return table;
    }
    let ghost s = stored@;
    let mut bit_pattern: u64 = 0;
    let mut prev_len: u8 = 0;
    let mut i: usize = 0;
    proof {
        assert(s.take(0) =~= Seq::<CodeLength>::empty());
    }
    while i < n
        invariant
            i <= n == s.len(),
            stored@ == s,
            n != 1,
            len_sorted(s),
            lens_ok(s, 63),
            kraft_sum(s, 63) <= pow2(63),
            table@.len() == i,
            forall|j: int| 0 <= j < i ==> table@[j] == canon_entries(s)[j],
            bit_pattern as nat == canon_next(s.take(i as int)).0,
            prev_len as nat == canon_next(s.take(i as int)).1,
            prev_len <= 63,
        decreases n - i,
    {
        let code = stored[i];
        proof {
            lemma_canon_pattern_fits(s, i as int, 63);
            lemma_canon_state(s.take(i as int), 63);
            if i > 0 {
                assert(s.take(i as int).last() == s[i as int - 1]);
                assert(s[i as int - 1].len <= s[i as int].len);
            }
            assert(prev_len <= code.len);
            lemma2_to64_rest();
            lemma_pow2_strictly_increases(code.len as nat, 64);
        }
        if code.len > prev_len {
            let delta = code.len - prev_len;
            let factor = pow2_u64(delta);
            proof {
                assert((bit_pattern * factor) as nat == canon_pattern(s, i as int));
            }
            bit_pattern = bit_pattern * factor;
        }
        proof {
            assert(pow2(0) == 1) by {
                lemma2_to64();
            }
            let st = canon_next(s.take(i as int));
            if code.len == prev_len {
                assert(canon_shift(st, code.len as nat) == st.0 * pow2(0));
                assert(st.0 * pow2(0) == st.0) by (nonlinear_arith)
                    requires
                        pow2(0) == 1,
                ;
            }
            assert(bit_pattern as nat == canon_pattern(s, i as int));
        }
        table.push(CodeEntry { bit_pattern, len: code.len });
        proof {
            assert(s.take(i as int + 1).drop_last() =~= s.take(i as int));
            assert(s.take(i as int + 1).last() == s[i as int]);
            assert(canon_next(s.take(i as int + 1)).0 == canon_pattern(s, i as int) + 1);
            assert(canon_entries(s)[i as int] == (CodeEntry { bit_pattern, len: code.len }));
        }
        bit_pattern = bit_pattern + 1;
        prev_len = code.len;
        i = i + 1;
    }
    proof {
        assert(table@ =~= canon_entries(s));
    }
    table
}

/// Decodes one symbol from the payload, most significant bit first, starting
/// at bit cursor `start`.
fn decode_symbol(
    payload: &Vec<u8>,
    start: u128,
    stored: &Vec<CodeLength>,
    table: &Vec<CodeEntry>,
) -> (r: Result<(u8, u128), CodecError>)
    requires
        table@ == canon_entries(stored@),
        start as nat <= 8 * payload@.len(),
    ensures
        match r {
            Ok((b, k1)) => spec_decode_one(bytes_bits(payload@), start as nat, stored@, 0)
                == Ok::<(u8, nat), CodecError>((b, k1 as nat)) && k1 as nat <= 8 * payload@.len(),
            Err(e) => spec_decode_one(bytes_bits(payload@), start as nat, stored@, 0) == Err::<
                (u8, nat),
                CodecError,
            >(e),
        },
{
    let ghost bits = bytes_bits(payload@);
    proof {
        lemma_bytes_bits_len(payload@);
    }
    let plen = payload.len();
    let total_bits: u128 = 8 * (plen as u128);
    let mut l: u8 = 0;
    let mut p: u64 = 0;
    proof {
        assert(bits.subrange(start as int, start as int) =~= Seq::<bool>::empty());
    }
    while l < 64
        invariant
            l <= 64,
            table@ == canon_entries(stored@),
            bits == bytes_bits(payload@),
            total_bits as nat == bits.len() == 8 * payload@.len(),
            payload@.len() <= usize::MAX,
            start as nat + l as nat <= bits.len(),
            p as nat == bits_val(
                bits.subrange(start as int, start as int + l as int),
            ),
            spec_decode_one(bits, start as nat, stored@, 0) == spec_decode_one(
                bits,
                start as nat,
                stored@,
                l as nat,
            ),
        decreases 64 - l,
    {
        let bit_index: u128 = start + (l as u128);
        if bit_index >= total_bits {
            proof {
                assert(spec_decode_one(bits, start as nat, stored@, l as nat) == Err::<
                    (u8, nat),
                    CodecError,
                >(CodecError::CorruptData));
            }
            return Err(CodecError::CorruptData);
        }
        proof {
            assert((bit_index as int) / 8 < payload@.len()) by {
                vstd::arithmetic::div_mod::lemma_multiply_divide_lt(
                    bit_index as int,
                    8,
                    payload@.len() as int,
                );
            }
            assert(0 <= (bit_index as int) % 8 < 8) by {
                vstd::arithmetic::div_mod::lemma_mod_bound(bit_index as int, 8);
            }
        }
        let byte_idx = (bit_index / 8) as usize;
        proof {
            assert(byte_idx as int == (bit_index as int) / 8);
        }
        let byte = payload[byte_idx];
        let bitpos = (bit_index % 8) as u8;
        let factor = pow2_u64(7 - bitpos);
        let bit: bool = (byte as u64 / factor) % 2 == 1;
        proof {
            lemma_bytes_bits_index(payload@, bit_index as int);
            assert(bitpos as int == (bit_index as int) % 8);
            assert(factor as nat == pow2((7 - (bit_index as int) % 8) as nat));
            assert((byte as u64 / factor) as nat == (payload@[(bit_index as int) / 8] as nat)
                / pow2((7 - (bit_index as int) % 8) as nat));
            assert(bits[bit_index as int] == bit);
            let sub1 = bits.subrange(start as int, start as int + l as int + 1);
            assert(sub1.drop_last() =~= bits.subrange(start as int, start as int + l as int));
            assert(sub1.last() == bits[bit_index as int]);
            assert(bits_val(sub1) == 2 * (p as nat) + (if bit {
                1nat
            } else {
                0nat
            }));
            assert((p as nat) < pow2(l as nat)) by {
                lemma_bits_val_bound(bits.subrange(start as int, start as int + l as int));
            }
            assert(pow2(l as nat) <= pow2(63)) by {
                if (l as nat) < 63 {
                    lemma_pow2_strictly_increases(l as nat, 63);
                }
            }
            lemma2_to64_rest();
        }
        p = p * 2 + (if bit {
            1
        } else {
            0
        });
        l = l + 1;
        let nt = table.len();
        let mut j: usize = 0;
        while j < nt
            invariant
                j <= nt == table@.len(),
                table@ == canon_entries(stored@),
                bits == bytes_bits(payload@),
                total_bits as nat == bits.len() == 8 * payload@.len(),
                1 <= l <= 64,
                start as nat + l as nat <= bits.len(),
                p as nat == bits_val(bits.subrange(start as int, start as int + l as int)),
                spec_decode_one(bits, start as nat, stored@, 0) == spec_decode_one(
                    bits,
                    start as nat,
                    stored@,
                    (l - 1) as nat,
                ),
                find_code(stored@, 0, p as nat, l as nat) == find_code(
                    stored@,
                    j as int,
                    p as nat,
                    l as nat,
                ),
            decreases nt - j,
        {
            if table[j].len == l && table[j].bit_pattern == p {
                proof {
                    assert(find_code(stored@, j as int, p as nat, l as nat) == Some(
                        stored@[j as int].byte,
                    ));
                }
                let sym = stored[j].byte;
                proof {
                    assert(spec_decode_one(bits, start as nat, stored@, (l - 1) as nat) == Ok::<
                        (u8, nat),
                        CodecError,
                    >((sym, (start + l) as nat)));
                }
                return Ok((sym, start + (l as u128)));
            }
            j = j + 1;
        }
        proof {
            assert(find_code(stored@, nt as int, p as nat, l as nat) is None);
            assert(find_code(stored@, 0, p as nat, l as nat) is None);
            assert(spec_decode_one(bits, start as nat, stored@, (l - 1) as nat)
                == spec_decode_one(bits, start as nat, stored@, l as nat));
        }
    }
    proof {
        assert(spec_decode_one(bits, start as nat, stored@, 64) == Err::<(u8, nat), CodecError>(
            CodecError::CorruptData,
        ));
    }
    Err(CodecError::CorruptData)
}


/// A successful decode emits exactly `count` symbols and never moves the
/// cursor past the stream.
pub proof fn lemma_decode_n_len(bits: Seq<bool>, k: nat, stored: Seq<CodeLength>, count: nat)
    requires
        spec_decode_n(bits, k, stored, count) is Ok,
    ensures
        spec_decode_n(bits, k, stored, count).unwrap().0.len() == count,
    decreases count,
{
    if count > 0 {
        let step = spec_decode_one(bits, k, stored, 0);
        match step {
            Ok((b, k1)) => {
                lemma_decode_n_len(bits, k1, stored, (count - 1) as nat);
            },
            Err(e) => {},
        }
    }
}

/// Decompresses a container produced by `compress`, emitting exactly
/// `output_len` bytes.  The format stores code lengths but no total byte
/// count, so the caller supplies the original length; the zero padding of the
/// final payload byte is never decoded as data.  Malformed containers are
/// rejected: a short or inconsistent header, a zero code length, lengths out
/// of canonical order, lengths whose Kraft sum exceeds one, a truncated or
/// overlong payload, or bits that match no code.
pub fn decompress(input: &Vec<u8>, output_len: usize) -> (r: Result<Vec<u8>, CodecError>)
    ensures
        match r {
            Ok(out) => spec_decompress(input@, output_len as nat) == Ok::<Seq<u8>, CodecError>(
                out@,
            ),
            Err(e) => spec_decompress(input@, output_len as nat) == Err::<Seq<u8>, CodecError>(e),
        },
{
    let input_len = input.len();
    if input_len == 0 {
        if output_len == 0 {
            let empty: Vec<u8> = Vec::new();
            proof {
                assert(empty@ =~= Seq::<u8>::empty());
            }
            return Ok(empty);
        } else {
            return Err(CodecError::CorruptData);
        }
    }
    if input_len < 2 {
        return Err(CodecError::CorruptData);
    }
    let n: usize = (input[0] as usize) * 256 + (input[1] as usize);
    proof {
        assert(n as int == input@[0] as int * 256 + input@[1] as int);
    }
    if n == 0 {
        return Err(CodecError::CorruptData);
    }
    if input_len < 2 + 2 * n {
        return Err(CodecError::CorruptData);
    }
    let ghost pairs = spec_stored_pairs(input@, n as int);
    let mut stored: Vec<CodeLength> = Vec::new();
    let mut i: usize = 0;
    while i < n
        invariant
            i <= n,
            input@.len() == input_len,
            2 <= input@.len() <= usize::MAX,
            n as int == input@[0] as int * 256 + input@[1] as int,
            1 <= n,
            2 + 2 * n <= input@.len(),
            pairs == spec_stored_pairs(input@, n as int),
            stored@ == pairs.take(i as int),
        decreases n - i,
    {
        stored.push(CodeLength { byte: input[2 + 2 * i], len: input[3 + 2 * i] });
        proof {
            assert(stored@ =~= pairs.take(i as int + 1));
        }
        i = i + 1;
    }
    proof {
        assert(stored@ =~= pairs);
    }
    let mut i: usize = 0;
    while i < n
        invariant
            i <= n == stored@.len(),
            input@.len() == input_len,
            2 <= input@.len() <= usize::MAX,
            n as int == input@[0] as int * 256 + input@[1] as int,
            1 <= n,
            2 + 2 * n <= input@.len(),
            pairs == spec_stored_pairs(input@, n as int),
            stored@ == pairs,
            pair_error(pairs, i as int) is None,
        decreases n - i,
    {
        let len = stored[i].len;
        if len == 0 {
            proof {
                assert(pair_error(pairs, i as int + 1) == Some(CodecError::CorruptData));
                lemma_pair_error_propagates(pairs, i as int + 1, n as int);
            }
            return Err(CodecError::CorruptData);
        }
        if len > 63 {
            proof {
                assert(pair_error(pairs, i as int + 1) == Some(CodecError::CodeTooLong));
                lemma_pair_error_propagates(pairs, i as int + 1, n as int);
            }
            return Err(CodecError::CodeTooLong);
        }
        if i > 0 && stored[i - 1].len > len {
            proof {
                assert(pair_error(pairs, i as int + 1) == Some(CodecError::CorruptData));
                lemma_pair_error_propagates(pairs, i as int + 1, n as int);
            }
            return Err(CodecError::CorruptData);
        }
        proof {
            assert(pair_error(pairs, i as int + 1) is None);
        }
        i = i + 1;
    }
    proof {
        lemma_pair_error_ok(pairs, n as int);
    }
    let mut ksum: u64 = 0;
    let mut i: usize = 0;
    proof {
        assert(pairs.take(0) =~= Seq::<CodeLength>::empty());
        lemma2_to64_rest();
    }
    while i < n
        invariant
            i <= n == stored@.len(),
            input@.len() == input_len,
            2 <= input@.len() <= usize::MAX,
            n as int == input@[0] as int * 256 + input@[1] as int,
            1 <= n,
            2 + 2 * n <= input@.len(),
            pairs == spec_stored_pairs(input@, n as int),
            stored@ == pairs,
            pair_error(pairs, n as int) is None,
            forall|m: int| 0 <= m < n ==> 1 <= (#[trigger] pairs[m]).len <= 63,
            ksum as nat == kraft_sum(pairs.take(i as int), 63),
            ksum as nat <= pow2(63),
        decreases n - i,
    {
        let len = stored[i].len;
        let term = pow2_u64(63 - len);
        proof {
            lemma_kraft_take_step(pairs, i as int, 63);
            assert(term as nat <= pow2(62)) by {
                if (63 - len) < 62 {
                    lemma_pow2_strictly_increases((63 - len) as nat, 62);
                }
            }
            lemma2_to64_rest();
            assert(pow2(62) + pow2(63) < 0x10000000000000000) by {
                lemma2_to64_rest();
            }
        }
        ksum = ksum + term;
        if ksum > 0x8000000000000000u64 {
            proof {
                assert(kraft_sum(pairs.take(i as int + 1), 63) > pow2(63));
                lemma_kraft_prefix(pairs, i as int + 1, 63);
                assert(kraft_sum(pairs, 63) > pow2(63));
            }
            return Err(CodecError::CorruptData);
        }
        i = i + 1;
    }
    proof {
        assert(pairs.take(n as int) =~= pairs);
        assert(kraft_sum(pairs, 63) <= pow2(63));
        assert(table_ok(pairs)) by {
            if pairs.len() != 1 {
                assert(len_sorted(pairs));
                assert(lens_ok(pairs, 63));
            }
        }
    }
    let table = build_table(&stored);
    let payload_offset = 2 + 2 * n;
    let mut payload: Vec<u8> = Vec::new();
    let mut t: usize = 0;
    let payload_len = input_len - payload_offset;
    while t < payload_len
        invariant
            t <= payload_len,
            input@.len() == input_len,
            2 <= input@.len() <= usize::MAX,
            n as int == input@[0] as int * 256 + input@[1] as int,
            1 <= n,
            2 + 2 * n <= input@.len(),
            payload_offset == 2 + 2 * n,
            payload_len == input@.len() - payload_offset,
            payload@ == input@.skip(payload_offset as int).take(t as int),
        decreases payload_len - t,
    {
        payload.push(input[payload_offset + t]);
        proof {
            assert(payload@ =~= input@.skip(payload_offset as int).take(t as int + 1));
        }
        t = t + 1;
    }
    proof {
        assert(payload@ =~= input@.skip(payload_offset as int));
    }
    let ghost bits = bytes_bits(payload@);
    let ghost fr = spec_decode_n(bits, 0, pairs, output_len as nat);
    proof {
        lemma_bytes_bits_len(payload@);
    }
    let mut out: Vec<u8> = Vec::new();
    let mut k: u128 = 0;
    let mut emitted: usize = 0;
    proof {
        match fr {
            Ok(p) => {
                lemma_decode_n_len(bits, 0, pairs, output_len as nat);
                assert(p.0.take(0) =~= Seq::<u8>::empty());
                assert(p.0.skip(0) =~= p.0);
            },
            Err(e) => {},
        }
    }
    while emitted < output_len
        invariant
            emitted <= output_len,
            input@.len() == input_len,
            2 <= input@.len() <= usize::MAX,
            n as int == input@[0] as int * 256 + input@[1] as int,
            1 <= n,
            2 + 2 * n <= input@.len(),
            pairs == spec_stored_pairs(input@, n as int),
            pair_error(pairs, n as int) is None,
            kraft_sum(pairs, 63) <= pow2(63),
            payload@ == input@.skip(2 + 2 * n as int),
            payload_len == payload@.len(),
            stored@ == pairs,
            table@ == canon_entries(pairs),
            bits == bytes_bits(payload@),
            bits.len() == 8 * payload@.len(),
            fr == spec_decode_n(bits, 0, pairs, output_len as nat),
            fr is Ok ==> fr.unwrap().0.len() == output_len,
            k as nat <= bits.len(),
            out@.len() == emitted,
            match fr {
                Ok(p) => out@ == p.0.take(emitted as int) && spec_decode_n(
                    bits,
                    k as nat,
                    pairs,
                    (output_len - emitted) as nat,
                ) == Ok::<(Seq<u8>, nat), CodecError>((p.0.skip(emitted as int), p.1)),
                Err(e) => spec_decode_n(bits, k as nat, pairs, (output_len - emitted) as nat)
                    == Err::<(Seq<u8>, nat), CodecError>(e),
            },
        decreases output_len - emitted,
    {
        let ghost remaining = (output_len - emitted) as nat;
        let res = decode_symbol(&payload, k, &stored, &table);
        match res {
            Err(e) => {
                proof {
                    assert(spec_decode_n(bits, k as nat, pairs, remaining) == Err::<
                        (Seq<u8>, nat),
                        CodecError,
                    >(e));
                    assert(fr == Err::<(Seq<u8>, nat), CodecError>(e));
                }
                return Err(e);
            },
            Ok((b, k1)) => {
                proof {
                    let step = spec_decode_n(bits, k1 as nat, pairs, (remaining - 1) as nat);
                    assert(spec_decode_n(bits, k as nat, pairs, remaining) == (match step {
                        Err(e) => Err::<(Seq<u8>, nat), CodecError>(e),
                        Ok((rest, kf)) => Ok::<(Seq<u8>, nat), CodecError>((seq![b] + rest, kf)),
                    }));
                    match fr {
                        Ok(p) => {
                            let tail = p.0.skip(emitted as int);
                            assert(step is Ok);
                            let rest = step.unwrap().0;
                            assert(seq![b] + rest == tail);
                            assert(p.0.len() == output_len);
                            assert(tail.len() == output_len - emitted);
                            assert((seq![b] + rest)[0] == b);
                            assert(p.0[emitted as int] == tail[0]);
                            assert(out@.push(b) =~= p.0.take(emitted as int + 1));
                            assert(rest =~= tail.drop_first());
                            assert(tail.drop_first() =~= p.0.skip(emitted as int + 1));
                            assert(step == Ok::<(Seq<u8>, nat), CodecError>((
                                p.0.skip(emitted as int + 1),
                                p.1,
                            )));
                        },
                        Err(e) => {
                            assert(spec_decode_n(bits, k as nat, pairs, remaining) == Err::<
                                (Seq<u8>, nat),
                                CodecError,
                            >(e));
                            assert(step == Err::<(Seq<u8>, nat), CodecError>(e));
                        },
                    }
                }
                out.push(b);
                k = k1;
                emitted = emitted + 1;
            },
        }
    }
    proof {
        assert(spec_decode_n(bits, k as nat, pairs, 0) == Ok::<(Seq<u8>, nat), CodecError>(
            (Seq::empty(), k as nat),
        ));
        match fr {
            Ok(p) => {
                assert(p.0.len() == output_len);
                assert(out@ == p.0.take(output_len as int));
                assert(p.0.take(output_len as int) =~= p.0);
                assert(p.1 == k as nat);
            },
            Err(e) => {
                assert(spec_decode_n(bits, k as nat, pairs, 0) == Err::<
                    (Seq<u8>, nat),
                    CodecError,
                >(e));
                assert(false);
            },
        }
    }
    if (k + 7) / 8 == (payload_len as u128) {
        proof {
            assert((k as nat + 7) / 8 == payload@.len());
        }
        Ok(out)
    } else {
        proof {
            assert((k as nat + 7) / 8 != payload@.len());
        }
        Err(CodecError::CorruptData)
    }
}

} // verus!

