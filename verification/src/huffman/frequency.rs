//! The occurrence histogram that drives tree construction.
//!
//! A `Frequencies` value maps every byte value to how often it occurs in the
//! input; `from_input` builds it in a single left-to-right pass.

use vstd::prelude::*;
use crate::huffman::tree::{height, leaf_count, leaf_syms, spec_tree, HuffmanNode};

verus! {

/// How many times `b` occurs in `s`.
pub open spec fn count_occurrences(s: Seq<u8>, b: u8) -> nat
    decreases s.len(),
{
    if s.len() == 0 {
        0
    } else {
        count_occurrences(s.drop_last(), b) + (if s.last() == b {
            1nat
        } else {
            0nat
        })
    }
}

/// The sum of all counts in a histogram.
pub open spec fn total_count(s: Seq<u64>) -> nat
    decreases s.len(),
{
    if s.len() == 0 {
        0
    } else {
        total_count(s.drop_last()) + s.last() as nat
    }
}

pub proof fn lemma_count_occurrences_le_len(s: Seq<u8>, b: u8)
    ensures
        count_occurrences(s, b) <= s.len(),
    decreases s.len(),
{
    if s.len() > 0 {
        lemma_count_occurrences_le_len(s.drop_last(), b);
    }
}

/// A byte that stands somewhere in `s` has a positive count.
pub proof fn lemma_count_occurrences_positive(s: Seq<u8>, i: int)
    requires
        0 <= i < s.len(),
    ensures
        count_occurrences(s, s[i]) > 0,
    decreases s.len(),
{
    if i == s.len() - 1 {
        assert(s.last() == s[i]);
    } else {
        lemma_count_occurrences_positive(s.drop_last(), i);
        assert(s.drop_last()[i] == s[i]);
    }
}

/// Occurrence counts add up over concatenation.
pub proof fn lemma_count_occurrences_concat(a: Seq<u8>, b: Seq<u8>, c: u8)
    ensures
        count_occurrences(a + b, c) == count_occurrences(a, c) + count_occurrences(b, c),
    decreases b.len(),
{
    if b.len() == 0 {
        assert(a + b =~= a);
    } else {
        lemma_count_occurrences_concat(a, b.drop_last(), c);
        assert((a + b).drop_last() =~= a + b.drop_last());
        assert((a + b).last() == b.last());
    }
}

/// Updating one entry of a histogram changes the total by the difference.
pub proof fn lemma_total_count_update(s: Seq<u64>, j: int, v: u64)
    requires
        0 <= j < s.len(),
    ensures
        total_count(s.update(j, v)) + s[j] as nat == total_count(s) + v as nat,
    decreases s.len(),
{
    let t = s.update(j, v);
    if j == s.len() - 1 {
        assert(t.drop_last() =~= s.drop_last());
        assert(t.last() == v);
    } else {
        lemma_total_count_update(s.drop_last(), j, v);
        assert(t.drop_last() =~= s.drop_last().update(j, v));
        assert(t.last() == s.last());
    }
}

/// A 256-entry occurrence histogram over byte values.
#[derive(Debug)]
pub struct Frequencies {
    counts: Vec<u64>,
}

impl Frequencies {
    /// The histogram as a sequence indexed by byte value.
    pub closed spec fn counts(&self) -> Seq<u64> {
        self.counts@
    }

    pub open spec fn wf(&self) -> bool {
        self.counts().len() == 256
    }

    /// The count recorded for byte value `b`.
    pub open spec fn count(&self, b: u8) -> u64 {
        self.counts()[b as int]
    }

    /// The all-zero histogram.
    pub fn new() -> (r: Frequencies)
        ensures
            r.wf(),
            r.counts() == Seq::new(256, |i: int| 0u64),
    {
        let mut counts: Vec<u64> = Vec::new();
        let mut i: usize = 0;
        while i < 256
            invariant
                i <= 256,
                counts@.len() == i,
                forall|j: int| 0 <= j < i ==> counts@[j] == 0u64,
            decreases 256 - i,
        {
            counts.push(0);
            i = i + 1;
        }
        let r = Frequencies { counts };
        proof {
            assert(r.counts() =~= Seq::new(256, |i: int| 0u64));
        }
        r
    }

    /// Counts every byte of `input`, reading it once from start to end.
    pub fn from_input(input: &Vec<u8>) -> (r: Frequencies)
        ensures
            r.wf(),
            forall|b: u8| r.count(b) as nat == count_occurrences(input@, b),
            total_count(r.counts()) == input@.len(),
    {
        let mut frequencies = Frequencies::new();
        proof {
            assert forall|b: u8| frequencies.count(b) as nat == count_occurrences(
                input@.take(0),
                b,
            ) by {
                assert(input@.take(0) =~= Seq::<u8>::empty());
            }
            lemma_total_count_zero(frequencies.counts());
        }
        let n = input.len();
        let mut i: usize = 0;
        while i < n
            invariant
                i <= n == input@.len(),
                frequencies.wf(),
                forall|b: u8| frequencies.count(b) as nat == count_occurrences(input@.take(i as int), b),
                total_count(frequencies.counts()) == i,
            decreases n - i,
        {
            let byte = input[i];
            proof {
                lemma_count_occurrences_le_len(input@.take(i as int), byte);
            }
            let ghost prev = frequencies;
            frequencies.count_byte(byte);
            proof {
                assert forall|b: u8| frequencies.count(b) as nat == count_occurrences(
                    input@.take(i as int + 1),
                    b,
                ) by {
                    assert(input@.take(i as int + 1).drop_last() =~= input@.take(i as int));
                    assert(input@.take(i as int + 1).last() == byte);
                    assert(prev.count(b) as nat == count_occurrences(input@.take(i as int), b));
                    if b == byte {
                        assert(frequencies.count(b) == prev.count(b) + 1);
                    } else {
                        assert(frequencies.count(b) == prev.count(b));
                    }
                }
            }
            i = i + 1;
        }
        proof {
            assert(input@.take(n as int) =~= input@);
        }
        frequencies
    }

    /// Builds the Huffman tree for this histogram; the histogram must have at
    /// least one nonzero count.
    pub fn to_huff_tree(&self) -> (t: HuffmanNode)
        requires
            self.wf(),
            total_count(self.counts()) <= u64::MAX,
            !(forall|b: u8| self.count(b) == 0),
        ensures
            t == spec_tree(self.counts()),
            1 <= leaf_count(t) <= 256,
            height(t) < leaf_count(t),
            forall|b: u8| leaf_syms(t).contains(b) <==> self.count(b) > 0,
    {
        HuffmanNode::from_frequencies(self)
    }

    /// Adds one occurrence of `byte`.
    pub fn count_byte(&mut self, byte: u8)
        requires
            old(self).wf(),
            old(self).count(byte) < u64::MAX,
        ensures
            final(self).wf(),
            final(self).counts() == old(self).counts().update(
                byte as int,
                (old(self).count(byte) + 1) as u64,
            ),
            total_count(final(self).counts()) == total_count(old(self).counts()) + 1,
    {
        let idx = byte as usize;
        let updated = self.counts[idx] + 1;
        self.counts[idx] = updated;
        proof {
            lemma_total_count_update(old(self).counts(), byte as int, updated);
        }
    }

    /// The count recorded for `byte`.
    pub fn get(&self, byte: u8) -> (r: u64)
        requires
            self.wf(),
        ensures
            r == self.count(byte),
    {
        self.counts[byte as usize]
    }

    /// True exactly when every count is zero.
    pub fn is_empty(&self) -> (r: bool)
        requires
            self.wf(),
        ensures
            r <==> forall|b: u8| self.count(b) == 0,
    {
        let mut i: usize = 0;
        while i < 256
            invariant
                i <= 256,
                self.wf(),
                forall|j: int| 0 <= j < i ==> self.counts()[j] == 0u64,
            decreases 256 - i,
        {
            if self.counts[i] != 0 {
                proof {
                    assert(self.count(i as u8) != 0);
                }
                return false;
            }
            i = i + 1;
        }
        true
    }
}

/// An all-zero histogram has total zero.
pub proof fn lemma_total_count_zero(s: Seq<u64>)
    requires
        forall|j: int| 0 <= j < s.len() ==> s[j] == 0u64,
    ensures
        total_count(s) == 0,
    decreases s.len(),
{
    if s.len() > 0 {
        lemma_total_count_zero(s.drop_last());
    }
}

impl PartialEq for Frequencies {
    /// Two histograms are equal when every byte has the same count.
    fn eq(&self, other: &Frequencies) -> (r: bool) {
        if self.counts.len() != other.counts.len() {
            return false;
        }
        let n = self.counts.len();
        let mut i: usize = 0;
        while i < n
            invariant
                i <= n,
                n == self.counts@.len() == other.counts@.len(),
                forall|j: int| 0 <= j < i ==> self.counts@[j] == other.counts@[j],
            decreases n - i,
        {
            if self.counts[i] != other.counts[i] {
                return false;
            }
            i = i + 1;
        }
        proof {
            assert(self.counts@ =~= other.counts@);
        }
        true
    }
}

impl Eq for Frequencies {

}

impl vstd::std_specs::cmp::PartialEqSpecImpl for Frequencies {
    open spec fn obeys_eq_spec() -> bool {
        true
    }

    open spec fn eq_spec(&self, other: &Frequencies) -> bool {
        self.counts() == other.counts()
    }
}

} // verus!
