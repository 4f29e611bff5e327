//! The canonical code table.
//!
//! `CodeLength` pairs a symbol with its code length.  `ByteMap::new` sorts the
//! pairs by `(length, symbol)` and assigns each one its canonical bit pattern:
//! the running pattern is left-shifted by the length increase before each
//! assignment and incremented by one after it, so the patterns depend on the
//! sorted lengths alone.  A single-symbol alphabet is forced to the one-bit
//! code `1`.

use vstd::prelude::*;
use vstd::arithmetic::power2::{pow2, lemma_pow2_adds, lemma_pow2_pos, lemma2_to64_rest};
use vstd::arithmetic::mul::{
    lemma_mul_inequality_converse, lemma_mul_is_associative, lemma_mul_is_distributive_add_other_way,
};
use crate::huffman::bit_writer::pow2_u64;

verus! {

/// A symbol together with the bit length of its code.
#[derive(Clone, Copy, Debug, PartialEq, Eq, Structural)]
pub struct CodeLength {
    pub byte: u8,
    pub len: u8,
}

/// A symbol's code: its bit pattern (in the low `len` bits) and bit length.
#[derive(Clone, Copy, Debug, PartialEq, Eq, Structural)]
pub struct CodeEntry {
    pub bit_pattern: u64,
    pub len: u8,
}

/// The `(length, symbol)` order that canonicalization sorts by.
pub open spec fn code_le(a: CodeLength, b: CodeLength) -> bool {
    a.len < b.len || (a.len == b.len && a.byte <= b.byte)
}

/// Non-decreasing under `code_le`.
pub open spec fn lens_sorted(s: Seq<CodeLength>) -> bool {
    forall|i: int, j: int| 0 <= i <= j < s.len() ==> code_le(s[i], s[j])
}

/// Non-decreasing code lengths (the symbol order does not matter here).
pub open spec fn len_sorted(s: Seq<CodeLength>) -> bool {
    forall|i: int, j: int| 0 <= i <= j < s.len() ==> (#[trigger] s[i]).len <= (#[trigger] s[j]).len
}

/// Every code length lies in `[1, cap]`.
pub open spec fn lens_ok(s: Seq<CodeLength>, cap: nat) -> bool {
    forall|i: int| 0 <= i < s.len() ==> 1 <= (#[trigger] s[i]).len as nat <= cap
}

/// True when `b` is the symbol of some entry of `s`.
pub open spec fn has_symbol(s: Seq<CodeLength>, b: u8) -> bool {
    exists|i: int| 0 <= i < s.len() && s[i].byte == b
}

/// How many entries of `s` carry symbol `b`.
pub open spec fn byte_count(s: Seq<CodeLength>, b: u8) -> nat
    decreases s.len(),
{
    if s.len() == 0 {
        0
    } else {
        byte_count(s.drop_last(), b) + (if s.last().byte == b {
            1nat
        } else {
            0nat
        })
    }
}

pub proof fn lemma_byte_count_concat(x: Seq<CodeLength>, y: Seq<CodeLength>, b: u8)
    ensures
        byte_count(x + y, b) == byte_count(x, b) + byte_count(y, b),
    decreases y.len(),
{
    if y.len() == 0 {
        assert(x + y =~= x);
    } else {
        lemma_byte_count_concat(x, y.drop_last(), b);
        assert((x + y).drop_last() =~= x + y.drop_last());
        assert((x + y).last() == y.last());
    }
}

/// Two entries with one symbol force that symbol's count to at least two.
pub proof fn lemma_byte_count_two(s: Seq<CodeLength>, i: int, j: int, b: u8)
    requires
        0 <= i < j < s.len(),
        s[i].byte == b,
        s[j].byte == b,
    ensures
        byte_count(s, b) >= 2,
    decreases s.len(),
{
    if j == s.len() - 1 {
        lemma_byte_count_one(s.drop_last(), i, b);
    } else {
        lemma_byte_count_two(s.drop_last(), i, j, b);
    }
}

pub proof fn lemma_byte_count_one(s: Seq<CodeLength>, i: int, b: u8)
    requires
        0 <= i < s.len(),
        s[i].byte == b,
    ensures
        byte_count(s, b) >= 1,
    decreases s.len(),
{
    if i < s.len() - 1 {
        lemma_byte_count_one(s.drop_last(), i, b);
    }
}

/// The Kraft sum of the lengths of `s`, scaled by `pow2(cap)`: each entry of
/// length `l <= cap` contributes `pow2(cap - l)`.
pub open spec fn kraft_sum(s: Seq<CodeLength>, cap: nat) -> nat
    decreases s.len(),
{
    if s.len() == 0 {
        0
    } else {
        kraft_sum(s.drop_last(), cap) + (if s.last().len as nat <= cap {
            pow2((cap - s.last().len) as nat)
        } else {
            0nat
        })
    }
}

/// Inserts `x` after the last entry that does not exceed it, keeping ties in
/// first-come order.
pub open spec fn insert_sorted(x: CodeLength, s: Seq<CodeLength>) -> Seq<CodeLength>
    decreases s.len(),
{
    if s.len() == 0 {
        seq![x]
    } else if code_le(s.last(), x) {
        s.push(x)
    } else {
        insert_sorted(x, s.drop_last()).push(s.last())
    }
}

/// Insertion sort by `(length, symbol)`.
pub open spec fn sort_lengths(s: Seq<CodeLength>) -> Seq<CodeLength>
    decreases s.len(),
{
    if s.len() == 0 {
        Seq::empty()
    } else {
        insert_sorted(s.last(), sort_lengths(s.drop_last()))
    }
}

/// The running state of the canonical assignment after consuming `s`: the
/// next pattern to hand out, and the previous code length.
pub open spec fn canon_next(s: Seq<CodeLength>) -> (nat, nat)
    decreases s.len(),
{
    if s.len() == 0 {
        (0, 0)
    } else {
        let st = canon_next(s.drop_last());
        (canon_shift(st, s.last().len as nat) + 1, s.last().len as nat)
    }
}

/// Left-shifts the running pattern by the length increase.
pub open spec fn canon_shift(st: (nat, nat), l: nat) -> nat {
    if l >= st.1 {
        st.0 * pow2((l - st.1) as nat)
    } else {
        st.0
    }
}

/// The canonical bit pattern of entry `i` of the sorted list `s`.
pub open spec fn canon_pattern(s: Seq<CodeLength>, i: int) -> nat {
    canon_shift(canon_next(s.take(i)), s[i].len as nat)
}

/// The code assigned to each entry of the sorted list `s`; a single entry is
/// forced to the one-bit code `1`.
pub open spec fn canon_entries(s: Seq<CodeLength>) -> Seq<CodeEntry> {
    if s.len() == 1 {
        seq![CodeEntry { bit_pattern: 1u64, len: 1u8 }]
    } else {
        Seq::new(s.len(), |i: int| CodeEntry { bit_pattern: canon_pattern(s, i) as u64, len: s[i].len })
    }
}

/// The code that symbol `b` receives from the first `i` entries of the
/// sorted list `s`; a later entry for the same symbol wins.
pub open spec fn sym_code(s: Seq<CodeLength>, i: int, b: u8) -> Option<CodeEntry>
    decreases i,
{
    if i <= 0 {
        None
    } else if s[i - 1].byte == b {
        Some(CodeEntry { bit_pattern: canon_pattern(s, i - 1) as u64, len: s[i - 1].len })
    } else {
        sym_code(s, i - 1, b)
    }
}

/// The code that symbol `b` receives from the whole sorted list, with the
/// single-entry alphabet forced to the one-bit code `1`.
pub open spec fn sym_code_full(s: Seq<CodeLength>, b: u8) -> Option<CodeEntry> {
    if s.len() == 1 {
        if s[0].byte == b {
            Some(CodeEntry { bit_pattern: 1u64, len: 1u8 })
        } else {
            None
        }
    } else {
        sym_code(s, s.len() as int, b)
    }
}

/// `sym_code` hands out a code exactly for the symbols of the list.
pub proof fn lemma_sym_code_some(s: Seq<CodeLength>, i: int, b: u8)
    requires
        0 <= i <= s.len(),
    ensures
        sym_code(s, i, b).is_some() <==> exists|j: int| 0 <= j < i && (#[trigger] s[j]).byte == b,
    decreases i,
{
    if i > 0 {
        lemma_sym_code_some(s, i - 1, b);
        if s[i - 1].byte == b {
        } else {
            if sym_code(s, i, b).is_some() {
                let j = choose|j: int| 0 <= j < i - 1 && (#[trigger] s[j]).byte == b;
                assert(0 <= j < i && s[j].byte == b);
            }
            if exists|j: int| 0 <= j < i && (#[trigger] s[j]).byte == b {
                let j = choose|j: int| 0 <= j < i && (#[trigger] s[j]).byte == b;
                assert(j < i - 1);
            }
        }
    }
}

/// `sym_code_full` hands out a code exactly for the symbols of the list.
pub proof fn lemma_sym_code_full_some(s: Seq<CodeLength>, b: u8)
    ensures
        sym_code_full(s, b).is_some() <==> has_symbol(s, b),
{
    if s.len() == 1 {
        if s[0].byte == b {
            assert(has_symbol(s, b));
        } else {
            if has_symbol(s, b) {
                let j = choose|j: int| 0 <= j < s.len() && s[j].byte == b;
                assert(false);
            }
        }
    } else {
        lemma_sym_code_some(s, s.len() as int, b);
    }
}

/// A code handed out by `sym_code` is some entry's canonical code.
pub proof fn lemma_sym_code_entry(s: Seq<CodeLength>, i: int, b: u8, e: CodeEntry)
    requires
        0 <= i <= s.len(),
        sym_code(s, i, b) == Some(e),
    ensures
        exists|j: int|
            0 <= j < i && (#[trigger] s[j]).byte == b && e == (CodeEntry {
                bit_pattern: canon_pattern(s, j) as u64,
                len: s[j].len,
            }),
    decreases i,
{
    if i > 0 {
        if s[i - 1].byte == b {
            assert(s[i - 1].byte == b && e == (CodeEntry {
                bit_pattern: canon_pattern(s, i - 1) as u64,
                len: s[i - 1].len,
            }));
        } else {
            lemma_sym_code_entry(s, i - 1, b, e);
        }
    }
}

/// A code handed out by `sym_code_full` is some entry of the code table.
pub proof fn lemma_sym_code_full_entry(s: Seq<CodeLength>, b: u8, e: CodeEntry)
    requires
        sym_code_full(s, b) == Some(e),
    ensures
        exists|j: int|
            0 <= j < s.len() && (#[trigger] s[j]).byte == b && e == canon_entries(s)[j],
    decreases s.len(),
{
    if s.len() == 1 {
        assert(s[0].byte == b && e == canon_entries(s)[0]);
    } else {
        lemma_sym_code_entry(s, s.len() as int, b, e);
        let j = choose|j: int|
            0 <= j < s.len() && (#[trigger] s[j]).byte == b && e == (CodeEntry {
                bit_pattern: canon_pattern(s, j) as u64,
                len: s[j].len,
            });
        assert(canon_entries(s)[j] == e);
    }
}

/// The sorted order that the header stores; a single entry keeps its symbol
/// but is forced to length 1.
pub open spec fn canon_order(s: Seq<CodeLength>) -> Seq<CodeLength> {
    if s.len() == 1 {
        seq![CodeLength { byte: s[0].byte, len: 1u8 }]
    } else {
        sort_lengths(s)
    }
}

/// The Kraft sum distributes over concatenation.
pub proof fn lemma_kraft_concat(a: Seq<CodeLength>, b: Seq<CodeLength>, cap: nat)
    ensures
        kraft_sum(a + b, cap) == kraft_sum(a, cap) + kraft_sum(b, cap),
    decreases b.len(),
{
    if b.len() == 0 {
        assert(a + b =~= a);
    } else {
        lemma_kraft_concat(a, b.drop_last(), cap);
        assert((a + b).drop_last() =~= a + b.drop_last());
        assert((a + b).last() == b.last());
    }
}

pub proof fn lemma_insert_sorted_len(x: CodeLength, s: Seq<CodeLength>)
    ensures
        insert_sorted(x, s).len() == s.len() + 1,
    decreases s.len(),
{
    if s.len() > 0 && !code_le(s.last(), x) {
        lemma_insert_sorted_len(x, s.drop_last());
    }
}

/// Where the insertion lands: before the suffix of entries that exceed `x`.
pub proof fn lemma_insert_sorted_split(x: CodeLength, s: Seq<CodeLength>, j: int)
    requires
        0 <= j <= s.len(),
        forall|k: int| j <= k < s.len() ==> !code_le(#[trigger] s[k], x),
        j > 0 ==> code_le(s[j - 1], x),
    ensures
        insert_sorted(x, s) == s.take(j) + seq![x] + s.skip(j),
    decreases s.len(),
{
    lemma_insert_sorted_len(x, s);
    if s.len() == 0 {
        assert(insert_sorted(x, s) =~= s.take(0) + seq![x] + s.skip(0));
    } else if code_le(s.last(), x) {
        assert(j == s.len());
        assert(s.push(x) =~= s.take(j) + seq![x] + s.skip(j));
    } else {
        lemma_insert_sorted_split(x, s.drop_last(), j);
        lemma_insert_sorted_len(x, s.drop_last());
        assert(s.drop_last().take(j) =~= s.take(j));
        assert(insert_sorted(x, s) == (s.drop_last().take(j) + seq![x] + s.drop_last().skip(
            j,
        )).push(s.last()));
        assert((s.take(j) + seq![x] + s.drop_last().skip(j)).push(s.last()) =~= s.take(j) + seq![x]
            + s.skip(j));
    }
}

/// Every element of the insertion is `x` or one of `s`, and sortedness and
/// the Kraft sum carry over.
pub proof fn lemma_insert_sorted_ensures(x: CodeLength, s: Seq<CodeLength>, cap: nat)
    requires
        lens_sorted(s),
    ensures
        insert_sorted(x, s).len() == s.len() + 1,
        lens_sorted(insert_sorted(x, s)),
        kraft_sum(insert_sorted(x, s), cap) == kraft_sum(s, cap) + (if x.len as nat <= cap {
            pow2((cap - x.len) as nat)
        } else {
            0nat
        }),
        forall|k: int|
            0 <= k < insert_sorted(x, s).len() ==> (insert_sorted(x, s)[k] == x || s.contains(
                #[trigger] insert_sorted(x, s)[k],
            )),
    decreases s.len(),
{
    lemma_insert_sorted_len(x, s);
    let r = insert_sorted(x, s);
    let ghost term: nat = if x.len as nat <= cap {
        pow2((cap - x.len) as nat)
    } else {
        0nat
    };
    if s.len() == 0 {
        assert(r =~= seq![x]);
        assert(r.drop_last() =~= Seq::<CodeLength>::empty());
        assert(r.last() == x);
        assert(kraft_sum(r, cap) == kraft_sum(r.drop_last(), cap) + term);
        assert(kraft_sum(r.drop_last(), cap) == 0);
        assert(kraft_sum(s, cap) == 0);
    } else if code_le(s.last(), x) {
        assert(r == s.push(x));
        assert(r.drop_last() =~= s);
        assert(r.last() == x);
        assert(kraft_sum(r, cap) == kraft_sum(s, cap) + term);
        assert forall|i: int, j: int| 0 <= i <= j < r.len() implies code_le(r[i], r[j]) by {
            if j == r.len() - 1 {
                if i < j {
                    assert(code_le(s[i], s.last()));
                }
            }
        }
    } else {
        assert(lens_sorted(s.drop_last())) by {
            assert forall|i: int, j: int|
                0 <= i <= j < s.drop_last().len() implies code_le(
                s.drop_last()[i],
                s.drop_last()[j],
            ) by {
                assert(code_le(s[i], s[j]));
            }
        }
        lemma_insert_sorted_ensures(x, s.drop_last(), cap);
        lemma_insert_sorted_len(x, s.drop_last());
        let q = insert_sorted(x, s.drop_last());
        assert(r == q.push(s.last()));
        assert(r.drop_last() =~= q);
        assert(r.last() == s.last());
        assert(kraft_sum(q, cap) == kraft_sum(s.drop_last(), cap) + term);
        assert(kraft_sum(r, cap) == kraft_sum(q, cap) + (if s.last().len as nat <= cap {
            pow2((cap - s.last().len) as nat)
        } else {
            0nat
        }));
        assert(kraft_sum(s, cap) == kraft_sum(s.drop_last(), cap) + (if s.last().len as nat
            <= cap {
            pow2((cap - s.last().len) as nat)
        } else {
            0nat
        }));
        assert(kraft_sum(r, cap) == kraft_sum(s, cap) + term);
        // sortedness: everything in q is x or from s.drop_last(), and both
        // precede s.last() here.
        assert forall|i: int, j: int| 0 <= i <= j < r.len() implies code_le(r[i], r[j]) by {
            if j == r.len() - 1 {
                if i < j {
                    assert(q[i] == x || s.drop_last().contains(q[i]));
                    if q[i] == x {
                        assert(!code_le(s.last(), x));
                        assert(code_le(x, s.last()));
                    } else {
                        let k = choose|k: int|
                            0 <= k < s.drop_last().len() && s.drop_last()[k] == q[i];
                        assert(code_le(s[k], s.last()));
                    }
                }
            }
        }
    }
}

/// Insertion adds exactly the inserted entry's symbol.
pub proof fn lemma_insert_sorted_byte_count(x: CodeLength, s: Seq<CodeLength>, b: u8)
    ensures
        byte_count(insert_sorted(x, s), b) == byte_count(s, b) + (if x.byte == b {
            1nat
        } else {
            0nat
        }),
    decreases s.len(),
{
    lemma_insert_sorted_len(x, s);
    let r = insert_sorted(x, s);
    assert(byte_count(Seq::<CodeLength>::empty(), b) == 0);
    if s.len() == 0 {
        assert(r =~= seq![x]);
        assert(r.drop_last() =~= Seq::<CodeLength>::empty());
        assert(byte_count(r, b) == byte_count(r.drop_last(), b) + (if x.byte == b {
            1nat
        } else {
            0nat
        }));
    } else if code_le(s.last(), x) {
        assert(r == s.push(x));
        assert(r.drop_last() =~= s);
        assert(r.last() == x);
    } else {
        lemma_insert_sorted_byte_count(x, s.drop_last(), b);
        let q = insert_sorted(x, s.drop_last());
        assert(r == q.push(s.last()));
        assert(r.drop_last() =~= q);
        assert(r.last() == s.last());
    }
}

/// Sorting keeps each symbol's entry count.
pub proof fn lemma_sort_lengths_byte_count(s: Seq<CodeLength>, b: u8)
    ensures
        byte_count(sort_lengths(s), b) == byte_count(s, b),
    decreases s.len(),
{
    if s.len() > 0 {
        lemma_sort_lengths_byte_count(s.drop_last(), b);
        lemma_insert_sorted_byte_count(s.last(), sort_lengths(s.drop_last()), b);
    }
}

/// Insertion neither adds nor loses symbols, beyond `x`'s own.
pub proof fn lemma_insert_sorted_symbol(x: CodeLength, s: Seq<CodeLength>, b: u8)
    ensures
        has_symbol(insert_sorted(x, s), b) <==> (x.byte == b || has_symbol(s, b)),
    decreases s.len(),
{
    lemma_insert_sorted_len(x, s);
    let r = insert_sorted(x, s);
    if s.len() == 0 {
        assert(r =~= seq![x]);
        if has_symbol(r, b) {
            let i = choose|i: int| 0 <= i < r.len() && r[i].byte == b;
            assert(r[i] == x);
        }
        if x.byte == b {
            assert(r[0].byte == b);
        }
    } else if code_le(s.last(), x) {
        assert(r == s.push(x));
        if has_symbol(r, b) {
            let i = choose|i: int| 0 <= i < r.len() && r[i].byte == b;
            if i < s.len() {
                assert(s[i].byte == b);
            }
        }
        if x.byte == b {
            assert(r[r.len() - 1].byte == b);
        }
        if has_symbol(s, b) {
            let i = choose|i: int| 0 <= i < s.len() && s[i].byte == b;
            assert(r[i].byte == b);
        }
    } else {
        lemma_insert_sorted_symbol(x, s.drop_last(), b);
        lemma_insert_sorted_len(x, s.drop_last());
        let q = insert_sorted(x, s.drop_last());
        assert(r == q.push(s.last()));
        if has_symbol(r, b) {
            let i = choose|i: int| 0 <= i < r.len() && r[i].byte == b;
            if i == r.len() - 1 {
                assert(s[s.len() - 1].byte == b);
            } else {
                assert(q[i].byte == b);
                assert(has_symbol(q, b));
                if x.byte != b {
                    let k = choose|k: int|
                        0 <= k < s.drop_last().len() && s.drop_last()[k].byte == b;
                    assert(s[k].byte == b);
                }
            }
        }
        if x.byte == b {
            assert(has_symbol(q, b));
            let k = choose|k: int| 0 <= k < q.len() && q[k].byte == b;
            assert(r[k].byte == b);
        }
        if has_symbol(s, b) {
            let i = choose|i: int| 0 <= i < s.len() && s[i].byte == b;
            if i == s.len() - 1 {
                assert(r[r.len() - 1].byte == b);
            } else {
                assert(s.drop_last()[i].byte == b);
                assert(has_symbol(q, b));
                let k = choose|k: int| 0 <= k < q.len() && q[k].byte == b;
                assert(r[k].byte == b);
            }
        }
    }
}

/// Sorting keeps exactly the symbols of the list.
pub proof fn lemma_sort_lengths_symbol(s: Seq<CodeLength>, b: u8)
    ensures
        has_symbol(sort_lengths(s), b) <==> has_symbol(s, b),
    decreases s.len(),
{
    if s.len() > 0 {
        lemma_sort_lengths_symbol(s.drop_last(), b);
        lemma_insert_sorted_symbol(s.last(), sort_lengths(s.drop_last()), b);
        if has_symbol(s, b) {
            let i = choose|i: int| 0 <= i < s.len() && s[i].byte == b;
            if i == s.len() - 1 {
                assert(s.last().byte == b);
            } else {
                assert(s.drop_last()[i].byte == b);
                assert(has_symbol(s.drop_last(), b));
            }
        }
        if s.last().byte == b {
            assert(s[s.len() - 1].byte == b);
        }
        if has_symbol(s.drop_last(), b) {
            let i = choose|i: int| 0 <= i < s.drop_last().len() && s.drop_last()[i].byte == b;
            assert(s[i].byte == b);
        }
    }
}

/// Sorting keeps the length, the Kraft sum, the element pool and the symbol
/// set of the list.
pub proof fn lemma_sort_lengths_ensures(s: Seq<CodeLength>, cap: nat)
    ensures
        sort_lengths(s).len() == s.len(),
        lens_sorted(sort_lengths(s)),
        kraft_sum(sort_lengths(s), cap) == kraft_sum(s, cap),
        forall|k: int|
            0 <= k < sort_lengths(s).len() ==> s.contains(#[trigger] sort_lengths(s)[k]),
    decreases s.len(),
{
    let r = sort_lengths(s);
    if s.len() == 0 {
    } else {
        lemma_sort_lengths_ensures(s.drop_last(), cap);
        let q = sort_lengths(s.drop_last());
        lemma_insert_sorted_ensures(s.last(), q, cap);
        assert forall|k: int| 0 <= k < r.len() implies s.contains(#[trigger] r[k]) by {
            if r[k] == s.last() {
                assert(s[s.len() - 1] == r[k]);
            } else {
                assert(q.contains(r[k]));
                let m = choose|m: int| 0 <= m < q.len() && q[m] == r[k];
                assert(s.drop_last().contains(q[m]));
                let p = choose|p: int| 0 <= p < s.drop_last().len() && s.drop_last()[p] == q[m];
                assert(s[p] == r[k]);
            }
        }
    }
}

/// The canonical state after a sorted, in-range list: the previous length is
/// the last length, and the next pattern, scaled to `cap` bits, is exactly
/// the Kraft sum consumed so far.
pub proof fn lemma_canon_state(s: Seq<CodeLength>, cap: nat)
    requires
        len_sorted(s),
        lens_ok(s, cap),
    ensures
        canon_next(s).1 == (if s.len() == 0 {
            0nat
        } else {
            s.last().len as nat
        }),
        canon_next(s).1 <= cap,
        canon_next(s).0 * pow2((cap - canon_next(s).1) as nat) == kraft_sum(s, cap),
    decreases s.len(),
{
    if s.len() == 0 {
        assert(canon_next(s) == (0nat, 0nat));
        assert(canon_next(s).0 == 0);
        lemma_pow2_pos(cap);
        assert((cap - canon_next(s).1) as nat == cap);
        assert(0nat * pow2(cap) == 0) by (nonlinear_arith);
    } else {
        let t = s.drop_last();
        assert(len_sorted(t) && lens_ok(t, cap)) by {
            assert forall|i: int, j: int| 0 <= i <= j < t.len() implies (#[trigger] t[i]).len <= (
            #[trigger] t[j]).len by {
                assert(s[i].len <= s[j].len);
            }
            assert forall|i: int| 0 <= i < t.len() implies 1 <= (#[trigger] t[i]).len as nat
                <= cap by {
                assert(1 <= s[i].len as nat <= cap);
            }
        }
        lemma_canon_state(t, cap);
        let st = canon_next(t);
        let l = s.last().len as nat;
        assert(1 <= l <= cap);
        assert(st.1 <= l) by {
            if t.len() > 0 {
                assert(s[s.len() - 2].len <= s[s.len() - 1].len);
            }
        }
        let shifted = canon_shift(st, l);
        assert(shifted * pow2((cap - l) as nat) == kraft_sum(t, cap)) by {
            lemma_pow2_adds((l - st.1) as nat, (cap - l) as nat);
            lemma_mul_is_associative(
                st.0 as int,
                pow2((l - st.1) as nat) as int,
                pow2((cap - l) as nat) as int,
            );
        }
        assert(canon_next(s).0 == shifted + 1);
        assert((shifted + 1) * pow2((cap - l) as nat) == shifted * pow2((cap - l) as nat) + pow2(
            (cap - l) as nat,
        )) by {
            lemma_mul_is_distributive_add_other_way(
                pow2((cap - l) as nat) as int,
                shifted as int,
                1,
            );
        }
    }
}

/// The Kraft sum of a prefix never exceeds the whole sum.
pub proof fn lemma_kraft_prefix(s: Seq<CodeLength>, i: int, cap: nat)
    requires
        0 <= i <= s.len(),
    ensures
        kraft_sum(s.take(i), cap) <= kraft_sum(s, cap),
    decreases s.len() - i,
{
    if i == s.len() {
        assert(s.take(i) =~= s);
    } else {
        lemma_kraft_prefix(s, i + 1, cap);
        assert(s.take(i + 1).drop_last() =~= s.take(i));
        assert(kraft_sum(s.take(i), cap) <= kraft_sum(s.take(i + 1), cap));
    }
}

/// One step of the Kraft sum over a prefix.
pub proof fn lemma_kraft_take_step(s: Seq<CodeLength>, i: int, cap: nat)
    requires
        0 <= i < s.len(),
    ensures
        kraft_sum(s.take(i + 1), cap) == kraft_sum(s.take(i), cap) + (if s[i].len as nat <= cap {
            pow2((cap - s[i].len) as nat)
        } else {
            0nat
        }),
{
    assert(s.take(i + 1).drop_last() =~= s.take(i));
    assert(s.take(i + 1).last() == s[i]);
}

/// Each canonical pattern fits in its own length, and, scaled to `cap` bits,
/// equals the Kraft sum of the entries before it.
pub proof fn lemma_canon_pattern_fits(s: Seq<CodeLength>, i: int, cap: nat)
    requires
        len_sorted(s),
        lens_ok(s, cap),
        kraft_sum(s, cap) <= pow2(cap),
        0 <= i < s.len(),
    ensures
        canon_pattern(s, i) * pow2((cap - s[i].len) as nat) == kraft_sum(s.take(i), cap),
        canon_pattern(s, i) < pow2(s[i].len as nat),
{
    let p = s.take(i);
    assert(len_sorted(p) && lens_ok(p, cap)) by {
        assert forall|a: int, b: int| 0 <= a <= b < p.len() implies (#[trigger] p[a]).len <= (
        #[trigger] p[b]).len by {
            assert(s[a].len <= s[b].len);
        }
        assert forall|a: int| 0 <= a < p.len() implies 1 <= (#[trigger] p[a]).len as nat <= cap by {
            assert(1 <= s[a].len as nat <= cap);
        }
    }
    lemma_canon_state(p, cap);
    let st = canon_next(p);
    let l = s[i].len as nat;
    assert(1 <= l <= cap);
    assert(st.1 <= l) by {
        if i > 0 {
            assert(p.last() == s[i - 1]);
            assert(s[i - 1].len <= s[i].len);
        }
    }
    let pat = canon_pattern(s, i);
    assert(pat == st.0 * pow2((l - st.1) as nat));
    assert(pat * pow2((cap - l) as nat) == kraft_sum(p, cap)) by {
        lemma_pow2_adds((l - st.1) as nat, (cap - l) as nat);
        lemma_mul_is_associative(
            st.0 as int,
            pow2((l - st.1) as nat) as int,
            pow2((cap - l) as nat) as int,
        );
    }
    lemma_kraft_take_step(s, i, cap);
    lemma_kraft_prefix(s, i + 1, cap);
    assert(pat * pow2((cap - l) as nat) + pow2((cap - l) as nat) <= pow2(cap));
    assert((pat + 1) * pow2((cap - l) as nat) <= pow2(cap)) by {
        lemma_mul_is_distributive_add_other_way(pow2((cap - l) as nat) as int, pat as int, 1);
    }
    assert(pow2(cap) == pow2(l) * pow2((cap - l) as nat)) by {
        lemma_pow2_adds(l, (cap - l) as nat);
    }
    assert(pat + 1 <= pow2(l)) by {
        lemma_pow2_pos((cap - l) as nat);
        lemma_mul_inequality_converse(
            (pat + 1) as int,
            pow2(l) as int,
            pow2((cap - l) as nat) as int,
        );
    }
}

/// Maps each symbol with an entry in the sorted list to its canonical code.
pub struct ByteMap {
    entries: Vec<Option<CodeEntry>>,
    order: Vec<CodeLength>,
}

impl ByteMap {
    pub closed spec fn entries_view(&self) -> Seq<Option<CodeEntry>> {
        self.entries@
    }

    pub open spec fn wf(&self) -> bool {
        self.entries_view().len() == 256
    }

    /// The stored `(length, symbol)`-sorted list that the header serializes.
    pub closed spec fn order(&self) -> Seq<CodeLength> {
        self.order@
    }

    /// The code assigned to symbol `b`, if it has one.
    pub open spec fn entry(&self, b: u8) -> Option<CodeEntry> {
        self.entries_view()[b as int]
    }

    /// Sorts the pairs and assigns canonical bit patterns.
    pub fn new(code_lengths: &mut Vec<CodeLength>) -> (m: ByteMap)
        requires
            old(code_lengths)@.len() == 1 || (lens_ok(sort_lengths(old(code_lengths)@), 63)
                && kraft_sum(sort_lengths(old(code_lengths)@), 63) <= pow2(63)),
        ensures
            final(code_lengths)@ == sort_lengths(old(code_lengths)@),
            m.wf(),
            m.order() == canon_order(old(code_lengths)@),
            forall|b: u8| m.entry(b) == sym_code_full(m.order(), b),
            forall|b: u8| m.entry(b).is_some() <==> has_symbol(m.order(), b),
            forall|b: u8|
                (#[trigger] m.entry(b)).is_some() ==> exists|i: int|
                    0 <= i < m.order().len() && (#[trigger] m.order()[i]).byte == b && m.entry(b)
                        == Some(canon_entries(m.order())[i]),
    {
        sort_code_lengths(code_lengths);
        proof {
            lemma_sort_lengths_ensures(old(code_lengths)@, 63);
        }
        let mut entries: Vec<Option<CodeEntry>> = Vec::new();
        let mut k: usize = 0;
        while k < 256
            invariant
                k <= 256,
                entries@.len() == k,
                forall|j: int| 0 <= j < k ==> entries@[j] is None,
            decreases 256 - k,
        {
            entries.push(None);
            k = k + 1;
        }
        let mut order: Vec<CodeLength> = Vec::new();

        if code_lengths.len() == 1 {
            let first = code_lengths[0];
            let forced = CodeLength { byte: first.byte, len: 1 };
            entries[first.byte as usize] = Some(CodeEntry { bit_pattern: 1, len: 1 });
            order.push(forced);
            let m = ByteMap { entries, order };
            proof {
                assert(m.order() =~= canon_order(old(code_lengths)@)) by {
                    assert(sort_lengths(old(code_lengths)@)[0] == old(code_lengths)@[0]) by {
                        assert(old(code_lengths)@.drop_last() =~= Seq::<CodeLength>::empty());
                    }
                }
                assert forall|b: u8| m.entry(b) == sym_code_full(m.order(), b) by {
                }
                assert forall|b: u8| m.entry(b).is_some() <==> has_symbol(m.order(), b) by {
                    if b == first.byte {
                        assert(m.order()[0].byte == b);
                    }
                }
                assert forall|b: u8| (#[trigger] m.entry(b)).is_some() implies exists|i: int|
                    0 <= i < m.order().len() && (#[trigger] m.order()[i]).byte == b && m.entry(b)
                        == Some(canon_entries(m.order())[i]) by {
                    assert(m.order()[0].byte == b && m.entry(b) == Some(
                        canon_entries(m.order())[0],
                    ));
                }
            }
            return m;
        }

        let ghost sorted = code_lengths@;
        proof {
            assert(len_sorted(sorted)) by {
                assert forall|a: int, b: int| 0 <= a <= b < sorted.len() implies (
                #[trigger] sorted[a]).len <= (#[trigger] sorted[b]).len by {
                    assert(code_le(sorted[a], sorted[b]));
                }
            }
        }
        let n = code_lengths.len();
        let mut bit_pattern: u64 = 0;
        let mut prev_len: u8 = 0;
        let mut i: usize = 0;
        proof {
            assert(sorted.take(0) =~= Seq::<CodeLength>::empty());
            if n > 0 {
                lemma_canon_state(sorted, 63);
            }
        }
        while i < n
            invariant
                i <= n == sorted.len(),
                code_lengths@ == sorted,
                lens_sorted(sorted),
                len_sorted(sorted),
                n != 1,
                n > 0 ==> lens_ok(sorted, 63) && kraft_sum(sorted, 63) <= pow2(63),
                entries@.len() == 256,
                order@ == sorted.take(i as int),
                bit_pattern as nat == canon_next(sorted.take(i as int)).0,
                prev_len as nat == canon_next(sorted.take(i as int)).1,
                prev_len <= 63,
                forall|b: u8| #[trigger] entries@[b as int] == sym_code(sorted, i as int, b),
                forall|b: u8| (#[trigger] entries@[b as int]).is_some() <==> has_symbol(
                    sorted.take(i as int),
                    b,
                ),
                forall|b: u8|
                    (#[trigger] entries@[b as int]).is_some() ==> exists|j: int|
                        0 <= j < i && (#[trigger] sorted[j]).byte == b && entries@[b as int]
                            == Some(
                            CodeEntry {
                                bit_pattern: canon_pattern(sorted, j) as u64,
                                len: sorted[j].len,
                            },
                        ),
            decreases n - i,
        {
            let code = code_lengths[i];
            proof {
                lemma_canon_pattern_fits(sorted, i as int, 63);
                lemma_kraft_take_step(sorted, i as int, 63);
                lemma_kraft_prefix(sorted, i as int + 1, 63);
                lemma_canon_state(sorted.take(i as int), 63);
                if i > 0 {
                    assert(sorted.take(i as int).last() == sorted[i as int - 1]);
                    assert(code_le(sorted[i as int - 1], sorted[i as int]));
                }
                assert(prev_len <= code.len);
                assert(canon_pattern(sorted, i as int) < pow2(code.len as nat));
                lemma2_to64_rest();
                vstd::arithmetic::power2::lemma_pow2_strictly_increases(code.len as nat, 64);
            }
            if code.len > prev_len {
                let delta = code.len - prev_len;
                let factor = pow2_u64(delta);
                proof {
                    assert((bit_pattern * factor) as nat == canon_pattern(sorted, i as int));
                }
                bit_pattern = bit_pattern * factor;
            }
            proof {
                vstd::arithmetic::power2::lemma_pow2(0);
                vstd::arithmetic::power::lemma_pow0(2);
                assert(pow2(0) == 1);
                let st = canon_next(sorted.take(i as int));
                if code.len > prev_len {
                    assert(bit_pattern as nat == canon_pattern(sorted, i as int));
                } else {
                    assert(code.len == prev_len);
                    assert(st.1 == prev_len as nat && st.0 == bit_pattern as nat);
                    assert(canon_pattern(sorted, i as int) == canon_shift(st, code.len as nat));
                    assert(canon_shift(st, code.len as nat) == st.0 * pow2(0));
                    assert(st.0 * pow2(0) == st.0) by (nonlinear_arith)
                        requires pow2(0) == 1,
                    ;
                    assert(bit_pattern as nat == canon_pattern(sorted, i as int));
                }
            }
            let ghost prev_entries = entries@;
            entries[code.byte as usize] = Some(
                CodeEntry { bit_pattern, len: code.len },
            );
            order.push(code);
            proof {
                assert(order@ =~= sorted.take(i as int + 1));
                assert(sorted.take(i as int + 1).drop_last() =~= sorted.take(i as int));
                assert(sorted.take(i as int + 1).last() == sorted[i as int]);
                assert(canon_next(sorted.take(i as int + 1)).0 == canon_pattern(sorted, i as int)
                    + 1);
                assert forall|b: u8| #[trigger] entries@[b as int] == sym_code(
                    sorted,
                    i as int + 1,
                    b,
                ) by {
                    if b != code.byte {
                        assert(entries@[b as int] == prev_entries[b as int]);
                    }
                }
                assert forall|b: u8| (#[trigger] entries@[b as int]).is_some() <==> has_symbol(
                    sorted.take(i as int + 1),
                    b,
                ) by {
                    if b == code.byte {
                        assert(sorted.take(i as int + 1)[i as int].byte == b);
                    } else {
                        assert(entries@[b as int] == prev_entries[b as int]);
                        if has_symbol(sorted.take(i as int + 1), b) {
                            let j = choose|j: int|
                                0 <= j < i + 1 && (#[trigger] sorted.take(i as int + 1)[j]).byte
                                    == b;
                            assert(sorted.take(i as int)[j].byte == b);
                        } else if has_symbol(sorted.take(i as int), b) {
                            let j = choose|j: int|
                                0 <= j < i && (#[trigger] sorted.take(i as int)[j]).byte == b;
                            assert(sorted.take(i as int + 1)[j].byte == b);
                        }
                    }
                }
            }
            bit_pattern = bit_pattern + 1;
            prev_len = code.len;
            i = i + 1;
        }
        let m = ByteMap { entries, order };
        proof {
            assert(sorted.take(n as int) =~= sorted);
            assert(m.order() == canon_order(old(code_lengths)@));
            assert forall|b: u8| m.entry(b) == sym_code_full(m.order(), b) by {
                assert(m.entry(b) == sym_code(sorted, n as int, b));
            }
            assert forall|b: u8| (#[trigger] m.entry(b)).is_some() implies exists|i: int|
                0 <= i < m.order().len() && (#[trigger] m.order()[i]).byte == b && m.entry(b)
                    == Some(canon_entries(m.order())[i]) by {
                let j = choose|j: int|
                    0 <= j < n && (#[trigger] sorted[j]).byte == b && m.entries_view()[b as int]
                        == Some(
                        CodeEntry {
                            bit_pattern: canon_pattern(sorted, j) as u64,
                            len: sorted[j].len,
                        },
                    );
                assert(canon_entries(m.order())[j] == CodeEntry {
                    bit_pattern: canon_pattern(sorted, j) as u64,
                    len: sorted[j].len,
                });
            }
        }
        m
    }

    /// How many symbols have codes.
    pub fn order_len(&self) -> (r: usize)
        ensures
            r == self.order().len(),
    {
        self.order.len()
    }

    /// The `i`-th entry of the stored sorted `(length, symbol)` list.
    pub fn order_at(&self, i: usize) -> (r: CodeLength)
        requires
            i < self.order().len(),
        ensures
            r == self.order()[i as int],
    {
        self.order[i]
    }

    /// The code for symbol `b`, if the table has one.
    pub fn get(&self, b: u8) -> (r: Option<CodeEntry>)
        requires
            self.wf(),
        ensures
            r == self.entry(b),
    {
        self.entries[b as usize]
    }
}

/// True when `a` must come strictly after `b` in the canonical order.
fn code_gt(a: &CodeLength, b: &CodeLength) -> (r: bool)
    ensures
        r == !code_le(*a, *b),
{
    a.len > b.len || (a.len == b.len && a.byte > b.byte)
}

/// Insertion sort by `(length, symbol)`, stable for equal keys.
fn sort_code_lengths(v: &mut Vec<CodeLength>)
    ensures
        final(v)@ == sort_lengths(old(v)@),
{
    let mut out: Vec<CodeLength> = Vec::new();
    let n = v.len();
    let mut i: usize = 0;
    proof {
        assert(out@ =~= sort_lengths(old(v)@.take(0)));
    }
    while i < n
        invariant
            i <= n == v@.len(),
            v@ == old(v)@,
            out@ == sort_lengths(v@.take(i as int)),
        decreases n - i,
    {
        let x = v[i];
        let mut j: usize = out.len();
        while j > 0 && code_gt(&out[j - 1], &x)
            invariant
                j <= out@.len(),
                forall|k: int| j <= k < out@.len() ==> !code_le(#[trigger] out@[k], x),
            decreases j,
        {
            j = j - 1;
        }
        proof {
            lemma_insert_sorted_split(x, out@, j as int);
        }
        out.insert(j, x);
        proof {
            assert(out@ =~= insert_sorted(x, sort_lengths(v@.take(i as int))));
            assert(v@.take(i as int + 1).drop_last() =~= v@.take(i as int));
            assert(v@.take(i as int + 1).last() == v@[i as int]);
        }
        i = i + 1;
    }
    *v = out;
    proof {
        assert(old(v)@.take(n as int) =~= old(v)@);
    }
}

} // verus!
