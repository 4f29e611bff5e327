//! Mathematical model of bit streams.
//!
//! A bit stream is a `Seq<bool>`, most significant bit first.  Code words are
//! integers paired with a bit length; `code_bits` turns such a pair into the
//! bit sequence that the writer emits and the reader consumes, `bits_val` is
//! its inverse, `bytes_bits` unpacks a byte sequence into bits, and
//! `pack_bits` groups a bit sequence into bytes, zero-padding the final
//! partial byte.

use vstd::prelude::*;
use vstd::arithmetic::power2::*;
use vstd::arithmetic::div_mod::*;

verus! {

/// The low `len` bits of `p`, most significant first.
pub open spec fn code_bits(p: nat, len: nat) -> Seq<bool>
    decreases len,
{
    if len == 0 {
        Seq::empty()
    } else {
        code_bits(p / 2, (len - 1) as nat).push(p % 2 == 1)
    }
}

/// The value of a bit sequence read as a base-two numeral, most significant
/// bit first.
pub open spec fn bits_val(s: Seq<bool>) -> nat
    decreases s.len(),
{
    if s.len() == 0 {
        0
    } else {
        2 * bits_val(s.drop_last()) + (if s.last() { 1nat } else { 0nat })
    }
}

/// All bits of a byte sequence, each byte most significant bit first.
pub open spec fn bytes_bits(s: Seq<u8>) -> Seq<bool>
    decreases s.len(),
{
    if s.len() == 0 {
        Seq::empty()
    } else {
        code_bits(s[0] as nat, 8) + bytes_bits(s.drop_first())
    }
}

/// Groups a bit sequence into bytes; a final partial byte is left-aligned and
/// zero-padded.
pub open spec fn pack_bits(s: Seq<bool>) -> Seq<u8>
    decreases s.len(),
{
    if s.len() == 0 {
        Seq::empty()
    } else if s.len() < 8 {
        seq![(bits_val(s) * pow2((8 - s.len()) as nat)) as u8]
    } else {
        seq![bits_val(s.take(8)) as u8] + pack_bits(s.skip(8))
    }
}

pub proof fn lemma_code_bits_len(p: nat, len: nat)
    ensures
        code_bits(p, len).len() == len,
    decreases len,
{
    if len > 0 {
        lemma_code_bits_len(p / 2, (len - 1) as nat);
    }
}

/// Appending `k` zero bits to a code word is multiplying it by `pow2(k)`.
pub proof fn lemma_code_bits_shift(p: nat, len: nat, k: nat)
    ensures
        code_bits(p * pow2(k), len + k) == code_bits(p, len) + code_bits(0, k),
    decreases k,
{
    if k == 0 {
        lemma_pow2(0);
        vstd::arithmetic::power::lemma_pow0(2);
        assert(p * pow2(0) == p);
        assert(code_bits(0, 0) == Seq::<bool>::empty());
        assert(code_bits(p, len) + code_bits(0, 0) =~= code_bits(p, len));
    } else {
        let km1 = (k - 1) as nat;
        lemma_pow2_unfold(k);
        assert(pow2(k) == 2 * pow2(km1));
        let q = p * pow2(k);
        assert(q == (p * pow2(km1)) * 2) by {
            vstd::arithmetic::mul::lemma_mul_is_associative(p as int, pow2(km1) as int, 2);
            vstd::arithmetic::mul::lemma_mul_is_commutative(pow2(km1) as int, 2);
        }
        assert(q % 2 == 0) by {
            lemma_mod_multiples_basic((p * pow2(km1)) as int, 2);
        }
        assert(q / 2 == p * pow2(km1)) by {
            lemma_div_by_multiple((p * pow2(km1)) as int, 2);
        }
        lemma_code_bits_shift(p, len, km1);
        assert(code_bits(q, len + k) == code_bits(p * pow2(km1), (len + k - 1) as nat).push(false));
        assert(code_bits(0, k) == code_bits(0, km1).push(false)) by {
            lemma_mod_self_0(2);
            assert(0nat / 2 == 0) by {
                lemma_div_of0(2);
            }
        }
        assert(code_bits(p, len) + code_bits(0, km1).push(false) =~= (code_bits(p, len)
            + code_bits(0, km1)).push(false)) by {
            lemma_code_bits_len(p, len);
            lemma_code_bits_len(0, km1);
        }
    }
}

/// Every bit of the all-zero code word is `false`.
pub proof fn lemma_code_bits_zero(k: nat)
    ensures
        code_bits(0, k).len() == k,
        forall|i: int| 0 <= i < k ==> !code_bits(0, k)[i],
    decreases k,
{
    lemma_code_bits_len(0, k);
    if k > 0 {
        lemma_div_of0(2);
        lemma_mod_self_0(2);
        assert(0nat / 2 == 0 && 0nat % 2 == 0);
        lemma_code_bits_zero((k - 1) as nat);
        assert(code_bits(0, k) == code_bits(0, (k - 1) as nat).push(false));
    }
}

/// `bits_val` inverts `code_bits` on values that fit in `len` bits.
pub proof fn lemma_bits_val_code_bits(p: nat, len: nat)
    requires
        p < pow2(len),
    ensures
        bits_val(code_bits(p, len)) == p,
    decreases len,
{
    lemma_code_bits_len(p, len);
    if len == 0 {
        assert(pow2(0) == 1) by {
            lemma_pow2(0);
            vstd::arithmetic::power::lemma_pow0(2);
        }
    } else {
        lemma_pow2_unfold(len);
        lemma_pow2_pos((len - 1) as nat);
        assert(p / 2 < pow2((len - 1) as nat)) by {
            lemma_multiply_divide_lt(p as int, 2, pow2((len - 1) as nat) as int);
        }
        lemma_bits_val_code_bits(p / 2, (len - 1) as nat);
        let s = code_bits(p, len);
        assert(s.drop_last() == code_bits(p / 2, (len - 1) as nat));
        lemma_fundamental_div_mod(p as int, 2);
    }
}

pub proof fn lemma_bits_val_bound(s: Seq<bool>)
    ensures
        bits_val(s) < pow2(s.len()),
    decreases s.len(),
{
    if s.len() == 0 {
        lemma_pow2(0);
        vstd::arithmetic::power::lemma_pow0(2);
    } else {
        lemma_bits_val_bound(s.drop_last());
        lemma_pow2_unfold(s.len());
    }
}

/// `code_bits` inverts `bits_val`.
pub proof fn lemma_code_bits_bits_val(s: Seq<bool>)
    ensures
        code_bits(bits_val(s), s.len()) == s,
    decreases s.len(),
{
    if s.len() > 0 {
        let v = bits_val(s);
        let b: nat = if s.last() { 1 } else { 0 };
        assert(v == 2 * bits_val(s.drop_last()) + b);
        assert(v / 2 == bits_val(s.drop_last()) && v % 2 == b) by {
            lemma_fundamental_div_mod_converse(
                v as int,
                2,
                bits_val(s.drop_last()) as int,
                b as int,
            );
        }
        lemma_code_bits_bits_val(s.drop_last());
        assert(code_bits(v, s.len()) == s.drop_last().push(s.last()));
        assert(s.drop_last().push(s.last()) =~= s);
    } else {
        assert(code_bits(0, 0) =~= s);
    }
}

pub proof fn lemma_bytes_bits_one(x: u8)
    ensures
        bytes_bits(seq![x]) == code_bits(x as nat, 8),
{
    let s = seq![x];
    assert(s.len() == 1);
    assert(s[0] == x);
    assert(s.drop_first() =~= Seq::<u8>::empty());
    assert(bytes_bits(s.drop_first()) == Seq::<bool>::empty());
    assert(bytes_bits(s) == code_bits(x as nat, 8) + Seq::<bool>::empty());
    lemma_code_bits_len(x as nat, 8);
    assert(code_bits(x as nat, 8) + Seq::<bool>::empty() =~= code_bits(x as nat, 8));
}

pub proof fn lemma_bytes_bits_two(x: u8, y: u8)
    ensures
        bytes_bits(seq![x, y]) == code_bits(x as nat, 8) + code_bits(y as nat, 8),
{
    let s = seq![x, y];
    assert(s.drop_first() =~= seq![y]);
    lemma_bytes_bits_one(y);
    assert(bytes_bits(s) == code_bits(x as nat, 8) + bytes_bits(s.drop_first()));
}

pub proof fn lemma_bytes_bits_len(s: Seq<u8>)
    ensures
        bytes_bits(s).len() == 8 * s.len(),
    decreases s.len(),
{
    if s.len() > 0 {
        lemma_code_bits_len(s[0] as nat, 8);
        lemma_bytes_bits_len(s.drop_first());
    }
}

pub proof fn lemma_bytes_bits_concat(a: Seq<u8>, b: Seq<u8>)
    ensures
        bytes_bits(a + b) == bytes_bits(a) + bytes_bits(b),
    decreases a.len(),
{
    if a.len() == 0 {
        assert(a + b =~= b);
        assert(bytes_bits(a) + bytes_bits(b) =~= bytes_bits(b));
    } else {
        assert((a + b).drop_first() =~= a.drop_first() + b);
        lemma_bytes_bits_concat(a.drop_first(), b);
        assert(bytes_bits(a + b) == code_bits(a[0] as nat, 8) + (bytes_bits(a.drop_first())
            + bytes_bits(b)));
        assert(code_bits(a[0] as nat, 8) + (bytes_bits(a.drop_first()) + bytes_bits(b)) =~= (
        code_bits(a[0] as nat, 8) + bytes_bits(a.drop_first())) + bytes_bits(b));
    }
}

pub proof fn lemma_bytes_bits_push(s: Seq<u8>, x: u8)
    ensures
        bytes_bits(s.push(x)) == bytes_bits(s) + code_bits(x as nat, 8),
{
    assert(s.push(x) =~= s + seq![x]);
    lemma_bytes_bits_concat(s, seq![x]);
    lemma_bytes_bits_one(x);
}

/// Packing a stream that starts with a whole byte peels that byte off.
pub proof fn lemma_pack_bits_byte(x: u8, rest: Seq<bool>)
    ensures
        pack_bits(code_bits(x as nat, 8) + rest) == seq![x] + pack_bits(rest),
{
    let cb = code_bits(x as nat, 8);
    lemma_code_bits_len(x as nat, 8);
    let s = cb + rest;
    assert(s.len() >= 8);
    assert(s.take(8) =~= cb);
    assert(s.skip(8) =~= rest);
    assert(bits_val(s.take(8)) == x as nat) by {
        lemma2_to64();
        lemma_bits_val_code_bits(x as nat, 8);
    }
    assert(pack_bits(s) == seq![x] + pack_bits(rest));
}

/// Packing a byte-aligned prefix reproduces those bytes unchanged.
pub proof fn lemma_pack_bits_bytes(a: Seq<u8>, rest: Seq<bool>)
    ensures
        pack_bits(bytes_bits(a) + rest) == a + pack_bits(rest),
    decreases a.len(),
{
    if a.len() == 0 {
        assert(bytes_bits(a) + rest =~= rest);
        assert(a + pack_bits(rest) =~= pack_bits(rest));
    } else {
        lemma_pack_bits_bytes(a.drop_first(), rest);
        assert(bytes_bits(a) + rest =~= code_bits(a[0] as nat, 8) + (bytes_bits(a.drop_first())
            + rest));
        lemma_pack_bits_byte(a[0], bytes_bits(a.drop_first()) + rest);
        assert(seq![a[0]] + (a.drop_first() + pack_bits(rest)) =~= a + pack_bits(rest));
    }
}

/// Unpacking a packed stream gives the stream back, followed by the zero
/// padding of the final partial byte.
pub proof fn lemma_bytes_bits_pack_bits(s: Seq<bool>)
    ensures
        bytes_bits(pack_bits(s)) == s + code_bits(0, ((8 - s.len() % 8) % 8) as nat),
    decreases s.len(),
{
    if s.len() == 0 {
        assert(s + code_bits(0, 0) =~= s);
    } else if s.len() < 8 {
        let pad = (8 - s.len()) as nat;
        let v = bits_val(s);
        lemma_bits_val_bound(s);
        let packed = (v * pow2(pad)) as nat;
        assert(v * pow2(pad) < pow2(s.len()) * pow2(pad)) by {
            lemma_pow2_pos(pad);
            vstd::arithmetic::mul::lemma_mul_strict_inequality(
                v as int,
                pow2(s.len()) as int,
                pow2(pad) as int,
            );
        }
        lemma_pow2_adds(s.len(), pad);
        lemma2_to64();
        assert(v * pow2(pad) < pow2(8));
        assert(pack_bits(s) == seq![packed as u8]);
        assert(packed < 256);
        lemma_bytes_bits_one(packed as u8);
        assert(bytes_bits(pack_bits(s)) == code_bits(packed, 8));
        lemma_code_bits_shift(v, s.len(), pad);
        assert(code_bits(packed, 8) == code_bits(v, s.len()) + code_bits(0, pad));
        lemma_code_bits_bits_val(s);
        assert((8 - s.len() % 8) % 8 == pad) by {
            lemma_small_mod(s.len(), 8);
            lemma_small_mod(pad, 8);
        }
    } else {
        let head = s.take(8);
        let tail = s.skip(8);
        let hv = bits_val(head);
        assert(head.len() == 8);
        lemma_bits_val_bound(head);
        lemma2_to64();
        assert(pack_bits(s) == seq![hv as u8] + pack_bits(tail));
        lemma_bytes_bits_concat(seq![hv as u8], pack_bits(tail));
        assert(hv < 256);
        lemma_bytes_bits_one(hv as u8);
        lemma_bytes_bits_pack_bits(tail);
        lemma_code_bits_bits_val(head);
        assert(tail.len() == s.len() - 8);
        assert(tail.len() % 8 == s.len() % 8) by {
            lemma_mod_sub_multiples_vanish(s.len() as int, 8);
        }
        let pad = ((8 - s.len() % 8) % 8) as nat;
        assert(bytes_bits(pack_bits(s)) =~= code_bits(hv, 8) + (tail + code_bits(0, pad)));
        assert(code_bits(hv, 8) + (tail + code_bits(0, pad)) =~= (head + tail) + code_bits(0, pad));
        assert(head + tail =~= s);
    }
}

/// Packing yields one byte per eight bits, the last byte possibly partial.
pub proof fn lemma_pack_bits_len(s: Seq<bool>)
    ensures
        pack_bits(s).len() == (s.len() + 7) / 8,
    decreases s.len(),
{
    if s.len() == 0 {
    } else if s.len() < 8 {
        assert((s.len() + 7) / 8 == 1);
    } else {
        lemma_pack_bits_len(s.skip(8));
        assert(s.skip(8).len() == s.len() - 8);
        assert((s.len() - 8 + 7) / 8 + 1 == (s.len() + 7) / 8) by {
            lemma_hoist_over_denominator(s.len() - 1, 1, 8);
        }
    }
}

/// Indexing into the bits of a byte sequence reads one bit of one byte.
pub proof fn lemma_bytes_bits_index(s: Seq<u8>, k: int)
    requires
        0 <= k < 8 * s.len(),
    ensures
        bytes_bits(s).len() == 8 * s.len(),
        bytes_bits(s)[k] == (((s[k / 8] as nat) / pow2((7 - k % 8) as nat)) % 2 == 1),
    decreases s.len(),
{
    lemma_bytes_bits_len(s);
    lemma_code_bits_len(s[0] as nat, 8);
    if k < 8 {
        assert(bytes_bits(s)[k] == code_bits(s[0] as nat, 8)[k]);
        assert(k / 8 == 0 && k % 8 == k) by {
            lemma_basic_div(k, 8);
            lemma_small_mod(k as nat, 8);
        }
        lemma_code_bits_index(s[0] as nat, 8, k);
    } else {
        lemma_bytes_bits_len(s.drop_first());
        lemma_bytes_bits_index(s.drop_first(), k - 8);
        assert(bytes_bits(s)[k] == bytes_bits(s.drop_first())[k - 8]);
        assert((k - 8) / 8 == k / 8 - 1 && (k - 8) % 8 == k % 8) by {
            lemma_hoist_over_denominator(k - 8, 1, 8);
            lemma_mod_sub_multiples_vanish(k, 8);
        }
        assert(s.drop_first()[(k - 8) / 8] == s[k / 8]);
    }
}

/// Bit `i` of a code word, counted most significant first.
pub proof fn lemma_code_bits_index(p: nat, len: nat, i: int)
    requires
        0 <= i < len,
    ensures
        code_bits(p, len).len() == len,
        code_bits(p, len)[i] == ((p / pow2((len - 1 - i) as nat)) % 2 == 1),
    decreases len,
{
    lemma_code_bits_len(p, len);
    if i == len - 1 {
        assert(pow2(0) == 1) by {
            lemma_pow2(0);
            vstd::arithmetic::power::lemma_pow0(2);
        }
        assert(p / pow2(0) == p) by {
            lemma_div_basics(p as int);
        }
        assert(code_bits(p, len)[i] == (p % 2 == 1));
    } else {
        lemma_code_bits_len(p / 2, (len - 1) as nat);
        lemma_code_bits_index(p / 2, (len - 1) as nat, i);
        assert(code_bits(p, len)[i] == code_bits(p / 2, (len - 1) as nat)[i]);
        let e = (len - 2 - i) as nat;
        assert((p / 2) / pow2(e) == p / pow2(e + 1)) by {
            lemma_pow2_pos(e);
            lemma_pow2_unfold(e + 1);
            lemma_div_denominator(p as int, 2, pow2(e) as int);
        }
    }
}

/// A prefix of a code word is the code word of the high bits.
pub proof fn lemma_code_bits_take(p: nat, len: nat, k: nat)
    requires
        k <= len,
    ensures
        code_bits(p, len).take(k as int) == code_bits(p / pow2((len - k) as nat), k),
    decreases len,
{
    lemma_code_bits_len(p, len);
    lemma_code_bits_len(p / pow2((len - k) as nat), k);
    if k == len {
        assert(pow2(0) == 1) by {
            lemma_pow2(0);
            vstd::arithmetic::power::lemma_pow0(2);
        }
        assert(p / pow2(0) == p) by {
            lemma_div_basics(p as int);
        }
        assert(code_bits(p, len).take(len as int) =~= code_bits(p, len));
    } else {
        // k < len: the last bit is dropped; recurse on p / 2.
        lemma_code_bits_take(p / 2, (len - 1) as nat, k);
        assert(code_bits(p, len).take(k as int) =~= code_bits(p / 2, (len - 1) as nat).take(
            k as int,
        ));
        let e = (len - 1 - k) as nat;
        assert((p / 2) / pow2(e) == p / pow2(e + 1)) by {
            lemma_pow2_pos(e);
            lemma_pow2_unfold(e + 1);
            lemma_div_denominator(p as int, 2, pow2(e) as int);
        }
    }
}

} // verus!
