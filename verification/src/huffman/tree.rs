//! The Huffman prefix tree.
//!
//! `from_frequencies` greedily merges the two lightest pending nodes until one
//! tree remains.  Ties on weight are broken by a deterministic key: a leaf's
//! key is its symbol value, an internal node's key is its creation order, so
//! two runs over the same histogram always build the identical tree.  The tree
//! is consumed immediately for its leaf depths and never serialized.

use vstd::prelude::*;
use vstd::arithmetic::power2::{pow2, lemma_pow2_unfold};
use crate::huffman::byte_map::{
    byte_count, canon_entries, canon_order, has_symbol, kraft_sum, lemma_byte_count_concat,
    lemma_kraft_concat, lemma_sort_lengths_ensures, lens_ok, sort_lengths, sym_code_full, ByteMap,
    CodeLength,
};
use crate::huffman::frequency::{
    count_occurrences, lemma_count_occurrences_concat, total_count, Frequencies,
};

verus! {

pub enum HuffmanNode {
    Leaf { byte: u8, fequency: u64 },
    Internal { left: Box<HuffmanNode>, right: Box<HuffmanNode>, frequency: u64 },
}

/// The weight stored in a node.
pub open spec fn spec_frequency(t: HuffmanNode) -> u64 {
    match t {
        HuffmanNode::Leaf { fequency, .. } => fequency,
        HuffmanNode::Internal { frequency, .. } => frequency,
    }
}

/// How many leaves the tree has.
pub open spec fn leaf_count(t: HuffmanNode) -> nat
    decreases t,
{
    match t {
        HuffmanNode::Leaf { .. } => 1,
        HuffmanNode::Internal { left, right, .. } => leaf_count(*left) + leaf_count(*right),
    }
}

/// The depth of the deepest leaf.
pub open spec fn height(t: HuffmanNode) -> nat
    decreases t,
{
    match t {
        HuffmanNode::Leaf { .. } => 0,
        HuffmanNode::Internal { left, right, .. } => 1 + (if height(*left) >= height(*right) {
            height(*left)
        } else {
            height(*right)
        }),
    }
}

/// The symbols of the leaves, left to right.
pub open spec fn leaf_syms(t: HuffmanNode) -> Seq<u8>
    decreases t,
{
    match t {
        HuffmanNode::Leaf { byte, .. } => seq![byte],
        HuffmanNode::Internal { left, right, .. } => leaf_syms(*left) + leaf_syms(*right),
    }
}

/// Each leaf's symbol paired with its depth, for a subtree rooted at depth
/// `d`, in left-to-right leaf order.
pub open spec fn spec_code_lengths(t: HuffmanNode, d: nat) -> Seq<CodeLength>
    decreases t,
{
    match t {
        HuffmanNode::Leaf { byte, .. } => seq![CodeLength { byte, len: d as u8 }],
        HuffmanNode::Internal { left, right, .. } => spec_code_lengths(*left, d + 1)
            + spec_code_lengths(*right, d + 1),
    }
}

/// The strict order by which the builder extracts pending nodes: ascending
/// weight, ties broken by ascending key.
pub open spec fn node_lt(a: (HuffmanNode, u64), b: (HuffmanNode, u64)) -> bool {
    spec_frequency(a.0) < spec_frequency(b.0) || (spec_frequency(a.0) == spec_frequency(b.0)
        && a.1 < b.1)
}

/// The index of the minimal pending node under `node_lt` (the earliest such
/// index when keys repeat).
pub open spec fn min_idx(s: Seq<(HuffmanNode, u64)>) -> int
    decreases s.len(),
{
    if s.len() <= 1 {
        0
    } else {
        let m = min_idx(s.drop_last());
        if node_lt(s.last(), s[m]) {
            s.len() - 1
        } else {
            m
        }
    }
}

pub proof fn lemma_min_idx_bounds(s: Seq<(HuffmanNode, u64)>)
    requires
        s.len() >= 1,
    ensures
        0 <= min_idx(s) < s.len(),
    decreases s.len(),
{
    if s.len() > 1 {
        lemma_min_idx_bounds(s.drop_last());
    }
}

/// One merge step: the two extracted nodes become the children of a fresh
/// internal node whose weight is the sum of theirs.
pub open spec fn combine(left: HuffmanNode, right: HuffmanNode) -> HuffmanNode {
    HuffmanNode::Internal {
        left: Box::new(left),
        right: Box::new(right),
        frequency: (spec_frequency(left) + spec_frequency(right)) as u64,
    }
}

/// Repeatedly merges the two minimal pending nodes until one remains; `next`
/// is the key given to the next internal node created.
pub open spec fn merge_all(s: Seq<(HuffmanNode, u64)>, next: u64) -> HuffmanNode
    decreases s.len(),
    via merge_all_decreases
{
    if s.len() <= 1 {
        s[0].0
    } else {
        let i = min_idx(s);
        let s1 = s.remove(i);
        let j = min_idx(s1);
        let s2 = s1.remove(j);
        merge_all(s2.push((combine(s[i].0, s1[j].0), next)), (next + 1) as u64)
    }
}

#[via_fn]
proof fn merge_all_decreases(s: Seq<(HuffmanNode, u64)>, next: u64) {
    if s.len() > 1 {
        lemma_min_idx_bounds(s);
        lemma_min_idx_bounds(s.remove(min_idx(s)));
    }
}

/// The pending list the builder starts from: one leaf per byte value in
/// `[0, n)` with a nonzero count, in ascending symbol order, keyed by symbol.
pub open spec fn initial_nodes(counts: Seq<u64>, n: int) -> Seq<(HuffmanNode, u64)>
    decreases n,
{
    if n <= 0 {
        Seq::empty()
    } else {
        initial_nodes(counts, n - 1) + (if counts[n - 1] > 0 {
            seq![
                (
                    HuffmanNode::Leaf { byte: (n - 1) as u8, fequency: counts[n - 1] },
                    (n - 1) as u64,
                ),
            ]
        } else {
            Seq::empty()
        })
    }
}

/// The tree that a histogram deterministically builds.
pub open spec fn spec_tree(counts: Seq<u64>) -> HuffmanNode {
    merge_all(initial_nodes(counts, 256), 256)
}

/// The total weight of a pending list.
pub open spec fn sum_weights(s: Seq<(HuffmanNode, u64)>) -> nat
    decreases s.len(),
{
    if s.len() == 0 {
        0
    } else {
        sum_weights(s.drop_last()) + spec_frequency(s.last().0) as nat
    }
}

pub proof fn lemma_sum_weights_remove(s: Seq<(HuffmanNode, u64)>, i: int)
    requires
        0 <= i < s.len(),
    ensures
        sum_weights(s.remove(i)) + spec_frequency(s[i].0) as nat == sum_weights(s),
    decreases s.len(),
{
    if i == s.len() - 1 {
        assert(s.remove(i) =~= s.drop_last());
    } else {
        lemma_sum_weights_remove(s.drop_last(), i);
        assert(s.remove(i).drop_last() =~= s.drop_last().remove(i));
        assert(s.remove(i).last() == s.last());
    }
}

pub proof fn lemma_sum_weights_push(s: Seq<(HuffmanNode, u64)>, x: (HuffmanNode, u64))
    ensures
        sum_weights(s.push(x)) == sum_weights(s) + spec_frequency(x.0) as nat,
{
    assert(s.push(x).drop_last() =~= s);
    assert(s.push(x).last() == x);
}

/// The initial pending list's total weight is the histogram's total count.
pub proof fn lemma_initial_nodes_weights(counts: Seq<u64>, n: int)
    requires
        0 <= n <= counts.len(),
    ensures
        sum_weights(initial_nodes(counts, n)) == total_count(counts.take(n)),
    decreases n,
{
    if n > 0 {
        lemma_initial_nodes_weights(counts, n - 1);
        assert(counts.take(n).drop_last() =~= counts.take(n - 1));
        assert(counts.take(n).last() == counts[n - 1]);
        if counts[n - 1] > 0 {
            let leaf = (HuffmanNode::Leaf { byte: (n - 1) as u8, fequency: counts[n - 1] }, (n
                - 1) as u64);
            assert(initial_nodes(counts, n) =~= initial_nodes(counts, n - 1).push(leaf));
            lemma_sum_weights_push(initial_nodes(counts, n - 1), leaf);
        } else {
            assert(initial_nodes(counts, n) =~= initial_nodes(counts, n - 1));
        }
    } else {
        assert(counts.take(0) =~= Seq::<u64>::empty());
    }
}

/// The initial pending list has at most one leaf per byte value.
pub proof fn lemma_initial_nodes_len(counts: Seq<u64>, n: int)
    requires
        n >= 0,
    ensures
        initial_nodes(counts, n).len() <= n,
    decreases n,
{
    if n > 0 {
        lemma_initial_nodes_len(counts, n - 1);
    }
}

/// A nonzero count puts at least one leaf in the initial pending list.
pub proof fn lemma_initial_nodes_nonempty(counts: Seq<u64>, n: int, b: int)
    requires
        0 <= b < n,
        counts[b] > 0,
    ensures
        initial_nodes(counts, n).len() >= 1,
    decreases n,
{
    if b == n - 1 {
    } else {
        lemma_initial_nodes_nonempty(counts, n - 1, b);
    }
}


/// Every strictly binary tree is shallower than its number of leaves.
pub proof fn lemma_height_lt_leaf_count(t: HuffmanNode)
    ensures
        height(t) < leaf_count(t),
    decreases t,
{
    match t {
        HuffmanNode::Leaf { .. } => {},
        HuffmanNode::Internal { left, right, .. } => {
            lemma_height_lt_leaf_count(*left);
            lemma_height_lt_leaf_count(*right);
        },
    }
}

/// The total leaf count of a pending list.
pub open spec fn sum_leaves(s: Seq<(HuffmanNode, u64)>) -> nat
    decreases s.len(),
{
    if s.len() == 0 {
        0
    } else {
        sum_leaves(s.drop_last()) + leaf_count(s.last().0)
    }
}

pub proof fn lemma_sum_leaves_remove(s: Seq<(HuffmanNode, u64)>, i: int)
    requires
        0 <= i < s.len(),
    ensures
        sum_leaves(s.remove(i)) + leaf_count(s[i].0) == sum_leaves(s),
    decreases s.len(),
{
    if i == s.len() - 1 {
        assert(s.remove(i) =~= s.drop_last());
    } else {
        lemma_sum_leaves_remove(s.drop_last(), i);
        assert(s.remove(i).drop_last() =~= s.drop_last().remove(i));
        assert(s.remove(i).last() == s.last());
    }
}

pub proof fn lemma_sum_leaves_push(s: Seq<(HuffmanNode, u64)>, x: (HuffmanNode, u64))
    ensures
        sum_leaves(s.push(x)) == sum_leaves(s) + leaf_count(x.0),
{
    assert(s.push(x).drop_last() =~= s);
    assert(s.push(x).last() == x);
}

/// Merging never creates or loses leaves.
pub proof fn lemma_merge_all_leaf_count(s: Seq<(HuffmanNode, u64)>, next: u64)
    requires
        s.len() >= 1,
    ensures
        leaf_count(merge_all(s, next)) == sum_leaves(s),
    decreases s.len(),
{
    if s.len() == 1 {
        assert(s.drop_last() =~= Seq::<(HuffmanNode, u64)>::empty());
        assert(sum_leaves(Seq::<(HuffmanNode, u64)>::empty()) == 0);
        assert(s.last() == s[0]);
        assert(merge_all(s, next) == s[0].0);
        assert(sum_leaves(s) == sum_leaves(s.drop_last()) + leaf_count(s.last().0));
    } else {
        lemma_min_idx_bounds(s);
        let i = min_idx(s);
        let s1 = s.remove(i);
        lemma_min_idx_bounds(s1);
        let j = min_idx(s1);
        let s2 = s1.remove(j);
        let c = (combine(s[i].0, s1[j].0), next);
        assert(merge_all(s, next) == merge_all(s2.push(c), (next + 1) as u64));
        assert(leaf_count(c.0) == leaf_count(s[i].0) + leaf_count(s1[j].0));
        lemma_merge_all_leaf_count(s2.push(c), (next + 1) as u64);
        lemma_sum_leaves_push(s2, c);
        lemma_sum_leaves_remove(s1, j);
        lemma_sum_leaves_remove(s, i);
    }
}

/// Merging keeps exactly the leaf symbols of the pending list.
pub proof fn lemma_merge_all_syms(s: Seq<(HuffmanNode, u64)>, next: u64, b: u8)
    requires
        s.len() >= 1,
    ensures
        leaf_syms(merge_all(s, next)).contains(b) <==> exists|k: int|
            0 <= k < s.len() && leaf_syms((#[trigger] s[k]).0).contains(b),
    decreases s.len(),
{
    if s.len() == 1 {
        if leaf_syms(merge_all(s, next)).contains(b) {
            assert(leaf_syms(s[0].0).contains(b));
        }
        if exists|k: int| 0 <= k < s.len() && leaf_syms((#[trigger] s[k]).0).contains(b) {
            let k = choose|k: int| 0 <= k < s.len() && leaf_syms((#[trigger] s[k]).0).contains(b);
            assert(k == 0);
        }
    } else {
        lemma_min_idx_bounds(s);
        let i = min_idx(s);
        let s1 = s.remove(i);
        lemma_min_idx_bounds(s1);
        let j = min_idx(s1);
        let s2 = s1.remove(j);
        let cnode = combine(s[i].0, s1[j].0);
        let c = (cnode, next);
        let sp = s2.push(c);
        lemma_merge_all_syms(sp, (next + 1) as u64, b);
        assert(leaf_syms(cnode) == leaf_syms(s[i].0) + leaf_syms(s1[j].0));
        // Each element of sp is the combined node or an untouched element of s,
        // and conversely every element of s survives in sp or inside the
        // combined node.
        if exists|k: int| 0 <= k < sp.len() && leaf_syms((#[trigger] sp[k]).0).contains(b) {
            let k = choose|k: int| 0 <= k < sp.len() && leaf_syms((#[trigger] sp[k]).0).contains(b);
            if k == sp.len() - 1 {
                // from the combined node: one of the two extracted elements
                let m = choose|m: int| 0 <= m < leaf_syms(cnode).len() && leaf_syms(cnode)[m] == b;
                if m < leaf_syms(s[i].0).len() {
                    assert(leaf_syms(s[i].0)[m] == b);
                    assert(leaf_syms(s[i].0).contains(b));
                } else {
                    assert(leaf_syms(s1[j].0)[m - leaf_syms(s[i].0).len()] == b);
                    assert(leaf_syms(s1[j].0).contains(b));
                    let j0: int = if j < i {
                        j
                    } else {
                        j + 1
                    };
                    assert(s1[j] == s[j0]);
                }
            } else {
                // an untouched element: find it back in s
                let k1: int = if k < j {
                    k
                } else {
                    k + 1
                };
                assert(s2[k] == s1[k1]);
                let k0: int = if k1 < i {
                    k1
                } else {
                    k1 + 1
                };
                assert(s1[k1] == s[k0]);
            }
        }
        if exists|k: int| 0 <= k < s.len() && leaf_syms((#[trigger] s[k]).0).contains(b) {
            let k = choose|k: int| 0 <= k < s.len() && leaf_syms((#[trigger] s[k]).0).contains(b);
            if k == i {
                let m = choose|m: int|
                    0 <= m < leaf_syms(s[i].0).len() && leaf_syms(s[i].0)[m] == b;
                assert(leaf_syms(cnode)[m] == b);
                assert(leaf_syms(sp[sp.len() - 1].0).contains(b));
            } else {
                let k1: int = if k < i {
                    k
                } else {
                    k - 1
                };
                assert(s1[k1] == s[k]);
                if k1 == j {
                    let m = choose|m: int|
                        0 <= m < leaf_syms(s1[j].0).len() && leaf_syms(s1[j].0)[m] == b;
                    assert(leaf_syms(cnode)[leaf_syms(s[i].0).len() + m] == b);
                    assert(leaf_syms(sp[sp.len() - 1].0).contains(b));
                } else {
                    let k2: int = if k1 < j {
                        k1
                    } else {
                        k1 - 1
                    };
                    assert(s2[k2] == s1[k1]);
                    assert(sp[k2] == s2[k2]);
                    assert(leaf_syms(sp[k2].0).contains(b));
                }
            }
        }
    }
}

/// The initial pending list carries exactly the symbols with nonzero counts,
/// each as a single leaf.
pub proof fn lemma_initial_nodes_syms(counts: Seq<u64>, n: int, b: u8)
    requires
        0 <= n <= 256,
    ensures
        (exists|k: int|
            0 <= k < initial_nodes(counts, n).len() && leaf_syms(
                (#[trigger] initial_nodes(counts, n)[k]).0,
            ).contains(b)) <==> ((b as int) < n && counts[b as int] > 0),
    decreases n,
{
    let s = initial_nodes(counts, n);
    if n == 0 {
        if exists|k: int| 0 <= k < s.len() && leaf_syms((#[trigger] s[k]).0).contains(b) {
            let k = choose|k: int| 0 <= k < s.len() && leaf_syms((#[trigger] s[k]).0).contains(b);
            assert(false);
        }
    } else {
        lemma_initial_nodes_syms(counts, n - 1, b);
        let t = initial_nodes(counts, n - 1);
        if counts[n - 1] > 0 {
            let leaf = HuffmanNode::Leaf { byte: (n - 1) as u8, fequency: counts[n - 1] };
            assert(s =~= t.push((leaf, (n - 1) as u64)));
            assert(leaf_syms(leaf) == seq![(n - 1) as u8]);
            if exists|k: int| 0 <= k < s.len() && leaf_syms((#[trigger] s[k]).0).contains(b) {
                let k = choose|k: int|
                    0 <= k < s.len() && leaf_syms((#[trigger] s[k]).0).contains(b);
                if k == s.len() - 1 {
                    let m = choose|m: int|
                        0 <= m < leaf_syms(leaf).len() && leaf_syms(leaf)[m] == b;
                    assert(b == (n - 1) as u8);
                } else {
                    assert(t[k] == s[k]);
                }
            }
            if (b as int) < n && counts[b as int] > 0 {
                if b as int == n - 1 {
                    assert(leaf_syms(s[s.len() - 1].0)[0] == b);
                    assert(leaf_syms(s[s.len() - 1].0).contains(b));
                } else {
                    let k = choose|k: int|
                        0 <= k < t.len() && leaf_syms((#[trigger] t[k]).0).contains(b);
                    assert(s[k] == t[k]);
                }
            }
        } else {
            assert(s =~= t);
            if (b as int) < n && counts[b as int] > 0 {
                assert(b as int != n - 1);
            }
        }
    }
}

/// How often symbol `b` appears among the leaves of a pending list.
pub open spec fn sum_sym_count(s: Seq<(HuffmanNode, u64)>, b: u8) -> nat
    decreases s.len(),
{
    if s.len() == 0 {
        0
    } else {
        sum_sym_count(s.drop_last(), b) + count_occurrences(leaf_syms(s.last().0), b)
    }
}

pub proof fn lemma_sum_sym_count_remove(s: Seq<(HuffmanNode, u64)>, i: int, b: u8)
    requires
        0 <= i < s.len(),
    ensures
        sum_sym_count(s.remove(i), b) + count_occurrences(leaf_syms(s[i].0), b) == sum_sym_count(
            s,
            b,
        ),
    decreases s.len(),
{
    if i == s.len() - 1 {
        assert(s.remove(i) =~= s.drop_last());
    } else {
        lemma_sum_sym_count_remove(s.drop_last(), i, b);
        assert(s.remove(i).drop_last() =~= s.drop_last().remove(i));
        assert(s.remove(i).last() == s.last());
    }
}

pub proof fn lemma_sum_sym_count_push(s: Seq<(HuffmanNode, u64)>, x: (HuffmanNode, u64), b: u8)
    ensures
        sum_sym_count(s.push(x), b) == sum_sym_count(s, b) + count_occurrences(leaf_syms(x.0), b),
{
    assert(s.push(x).drop_last() =~= s);
    assert(s.push(x).last() == x);
}

/// Merging neither duplicates nor drops leaf symbols.
pub proof fn lemma_merge_all_sym_count(s: Seq<(HuffmanNode, u64)>, next: u64, b: u8)
    requires
        s.len() >= 1,
    ensures
        count_occurrences(leaf_syms(merge_all(s, next)), b) == sum_sym_count(s, b),
    decreases s.len(),
{
    if s.len() == 1 {
        assert(s.drop_last() =~= Seq::<(HuffmanNode, u64)>::empty());
        assert(sum_sym_count(Seq::<(HuffmanNode, u64)>::empty(), b) == 0);
        assert(s.last() == s[0]);
        assert(merge_all(s, next) == s[0].0);
    } else {
        lemma_min_idx_bounds(s);
        let i = min_idx(s);
        let s1 = s.remove(i);
        lemma_min_idx_bounds(s1);
        let j = min_idx(s1);
        let s2 = s1.remove(j);
        let c = (combine(s[i].0, s1[j].0), next);
        assert(merge_all(s, next) == merge_all(s2.push(c), (next + 1) as u64));
        assert(leaf_syms(c.0) == leaf_syms(s[i].0) + leaf_syms(s1[j].0));
        lemma_count_occurrences_concat(leaf_syms(s[i].0), leaf_syms(s1[j].0), b);
        lemma_merge_all_sym_count(s2.push(c), (next + 1) as u64, b);
        lemma_sum_sym_count_push(s2, c, b);
        lemma_sum_sym_count_remove(s1, j, b);
        lemma_sum_sym_count_remove(s, i, b);
    }
}

/// The initial pending list holds each nonzero symbol exactly once.
pub proof fn lemma_initial_sym_count(counts: Seq<u64>, n: int, b: u8)
    requires
        0 <= n <= 256,
    ensures
        sum_sym_count(initial_nodes(counts, n), b) == (if (b as int) < n && counts[b as int] > 0 {
            1nat
        } else {
            0nat
        }),
    decreases n,
{
    if n > 0 {
        lemma_initial_sym_count(counts, n - 1, b);
        if counts[n - 1] > 0 {
            let leaf = (HuffmanNode::Leaf { byte: (n - 1) as u8, fequency: counts[n - 1] }, (n
                - 1) as u64);
            assert(initial_nodes(counts, n) =~= initial_nodes(counts, n - 1).push(leaf));
            lemma_sum_sym_count_push(initial_nodes(counts, n - 1), leaf, b);
            assert(leaf_syms(leaf.0) =~= seq![(n - 1) as u8]);
            assert(count_occurrences(seq![(n - 1) as u8], b) == (if b as int == n - 1 {
                1nat
            } else {
                0nat
            })) by {
                assert(seq![(n - 1) as u8].drop_last() =~= Seq::<u8>::empty());
                assert(count_occurrences(Seq::<u8>::empty(), b) == 0);
                assert(seq![(n - 1) as u8].last() == (n - 1) as u8);
            }
        } else {
            assert(initial_nodes(counts, n) =~= initial_nodes(counts, n - 1));
        }
    }
}

/// The symbol/depth list mentions each symbol as often as the leaves do.
pub proof fn lemma_code_lengths_sym_count(t: HuffmanNode, d: nat, b: u8)
    ensures
        byte_count(spec_code_lengths(t, d), b) == count_occurrences(leaf_syms(t), b),
    decreases t,
{
    match t {
        HuffmanNode::Leaf { byte, .. } => {
            assert(spec_code_lengths(t, d).drop_last() =~= Seq::<CodeLength>::empty());
            assert(byte_count(Seq::<CodeLength>::empty(), b) == 0);
            assert(leaf_syms(t).drop_last() =~= Seq::<u8>::empty());
            assert(count_occurrences(Seq::<u8>::empty(), b) == 0);
            assert(byte_count(spec_code_lengths(t, d), b) == (if byte == b {
                1nat
            } else {
                0nat
            }));
            assert(count_occurrences(leaf_syms(t), b) == (if byte == b {
                1nat
            } else {
                0nat
            }));
        },
        HuffmanNode::Internal { left, right, .. } => {
            lemma_code_lengths_sym_count(*left, d + 1, b);
            lemma_code_lengths_sym_count(*right, d + 1, b);
            lemma_byte_count_concat(
                spec_code_lengths(*left, d + 1),
                spec_code_lengths(*right, d + 1),
                b,
            );
            lemma_count_occurrences_concat(leaf_syms(*left), leaf_syms(*right), b);
        },
    }
}

/// The initial pending list is all single leaves.
pub proof fn lemma_initial_nodes_leaves(counts: Seq<u64>, n: int)
    requires
        0 <= n,
    ensures
        sum_leaves(initial_nodes(counts, n)) == initial_nodes(counts, n).len(),
    decreases n,
{
    if n > 0 {
        lemma_initial_nodes_leaves(counts, n - 1);
        if counts[n - 1] > 0 {
            let t = initial_nodes(counts, n - 1);
            let leaf = (HuffmanNode::Leaf { byte: (n - 1) as u8, fequency: counts[n - 1] }, (n
                - 1) as u64);
            assert(initial_nodes(counts, n) =~= t.push(leaf));
            lemma_sum_leaves_push(t, leaf);
        } else {
            assert(initial_nodes(counts, n) =~= initial_nodes(counts, n - 1));
        }
    }
}

/// Facts about the symbol/depth list of a subtree rooted at depth `d`: one
/// entry per leaf, lengths between `d` and `d + height`, the deepest reached,
/// and exactly the tree's leaf symbols.
pub proof fn lemma_code_lengths_of_tree(t: HuffmanNode, d: nat)
    requires
        d + height(t) <= 255,
    ensures
        spec_code_lengths(t, d).len() == leaf_count(t),
        forall|i: int|
            0 <= i < spec_code_lengths(t, d).len() ==> d <= (#[trigger] spec_code_lengths(
                t,
                d,
            )[i]).len as nat <= d + height(t),
        exists|i: int|
            0 <= i < spec_code_lengths(t, d).len() && (#[trigger] spec_code_lengths(t, d)[i]).len
                as nat == d + height(t),
        leaf_count(t) >= 2 ==> forall|i: int|
            0 <= i < spec_code_lengths(t, d).len() ==> (#[trigger] spec_code_lengths(t, d)[i]).len
                as nat >= d + 1,
    decreases t,
{
    match t {
        HuffmanNode::Leaf { byte, .. } => {
            assert(spec_code_lengths(t, d)[0].len as nat == d);
        },
        HuffmanNode::Internal { left, right, .. } => {
            lemma_code_lengths_of_tree(*left, d + 1);
            lemma_code_lengths_of_tree(*right, d + 1);
            let a = spec_code_lengths(*left, d + 1);
            let bs = spec_code_lengths(*right, d + 1);
            assert(spec_code_lengths(t, d) == a + bs);
            if height(*left) >= height(*right) {
                let i = choose|i: int|
                    0 <= i < a.len() && (#[trigger] a[i]).len as nat == d + 1 + height(*left);
                assert((a + bs)[i].len as nat == d + height(t));
            } else {
                let i = choose|i: int|
                    0 <= i < bs.len() && (#[trigger] bs[i]).len as nat == d + 1 + height(*right);
                assert((a + bs)[a.len() + i].len as nat == d + height(t));
            }
        },
    }
}

/// The symbols of the symbol/depth list are the leaf symbols.
pub proof fn lemma_code_lengths_syms(t: HuffmanNode, d: nat, b: u8)
    ensures
        has_symbol(spec_code_lengths(t, d), b) <==> leaf_syms(t).contains(b),
    decreases t,
{
    match t {
        HuffmanNode::Leaf { byte, .. } => {
            if has_symbol(spec_code_lengths(t, d), b) {
                let i = choose|i: int|
                    0 <= i < spec_code_lengths(t, d).len() && spec_code_lengths(t, d)[i].byte == b;
                assert(leaf_syms(t)[0] == b);
            }
            if leaf_syms(t).contains(b) {
                let i = choose|i: int| 0 <= i < leaf_syms(t).len() && leaf_syms(t)[i] == b;
                assert(spec_code_lengths(t, d)[0].byte == b);
            }
        },
        HuffmanNode::Internal { left, right, .. } => {
            lemma_code_lengths_syms(*left, d + 1, b);
            lemma_code_lengths_syms(*right, d + 1, b);
            let a = spec_code_lengths(*left, d + 1);
            let bs = spec_code_lengths(*right, d + 1);
            let la = leaf_syms(*left);
            let lb = leaf_syms(*right);
            if has_symbol(a + bs, b) {
                let i = choose|i: int| 0 <= i < (a + bs).len() && (a + bs)[i].byte == b;
                if i < a.len() {
                    assert(a[i].byte == b);
                    let m = choose|m: int| 0 <= m < la.len() && la[m] == b;
                    assert((la + lb)[m] == b);
                } else {
                    assert(bs[i - a.len()].byte == b);
                    let m = choose|m: int| 0 <= m < lb.len() && lb[m] == b;
                    assert((la + lb)[la.len() + m] == b);
                }
            }
            if (la + lb).contains(b) {
                let m = choose|m: int| 0 <= m < (la + lb).len() && (la + lb)[m] == b;
                if m < la.len() {
                    assert(la[m] == b);
                    let i = choose|i: int| 0 <= i < a.len() && a[i].byte == b;
                    assert((a + bs)[i].byte == b);
                } else {
                    assert(lb[m - la.len()] == b);
                    let i = choose|i: int| 0 <= i < bs.len() && bs[i].byte == b;
                    assert((a + bs)[a.len() + i].byte == b);
                }
            }
        },
    }
}

/// The Kraft equality of a full binary tree: the leaf depths, scaled to `cap`
/// bits, sum to exactly `pow2(cap - d)`.
pub proof fn lemma_kraft_tree(t: HuffmanNode, d: nat, cap: nat)
    requires
        d + height(t) <= cap,
        cap <= 255,
    ensures
        kraft_sum(spec_code_lengths(t, d), cap) == pow2((cap - d) as nat),
    decreases t,
{
    match t {
        HuffmanNode::Leaf { byte, .. } => {
            let s = spec_code_lengths(t, d);
            assert(s.drop_last() =~= Seq::<CodeLength>::empty());
            assert(kraft_sum(Seq::<CodeLength>::empty(), cap) == 0);
            assert(s.last().len as nat == d);
            assert(kraft_sum(s, cap) == kraft_sum(s.drop_last(), cap) + pow2((cap - d) as nat));
        },
        HuffmanNode::Internal { left, right, .. } => {
            lemma_kraft_tree(*left, d + 1, cap);
            lemma_kraft_tree(*right, d + 1, cap);
            let a = spec_code_lengths(*left, d + 1);
            let bs = spec_code_lengths(*right, d + 1);
            assert(spec_code_lengths(t, d) == a + bs);
            lemma_kraft_concat(a, bs, cap);
            lemma_pow2_unfold((cap - d) as nat);
        },
    }
}

impl HuffmanNode {
    /// The weight of this node: a leaf's occurrence count, or the sum of the
    /// leaf weights beneath an internal node.
    pub fn frequency(&self) -> (r: u64)
        ensures
            r == spec_frequency(*self),
    {
        match self {
            HuffmanNode::Leaf { fequency, .. } => *fequency,
            HuffmanNode::Internal { frequency, .. } => *frequency,
        }
    }

    /// Builds the Huffman tree for a histogram with at least one nonzero
    /// count, deterministically.
    pub fn from_frequencies(frequencies: &Frequencies) -> (t: HuffmanNode)
        requires
            frequencies.wf(),
            total_count(frequencies.counts()) <= u64::MAX,
            !(forall|b: u8| frequencies.count(b) == 0),
        ensures
            t == spec_tree(frequencies.counts()),
            1 <= leaf_count(t) <= 256,
            height(t) < leaf_count(t),
            forall|b: u8| leaf_syms(t).contains(b) <==> frequencies.count(b) > 0,
    {
        let ghost counts = frequencies.counts();
        let mut nodes: Vec<(HuffmanNode, u64)> = Vec::new();
        let mut b: usize = 0;
        proof {
            assert(nodes@ =~= initial_nodes(counts, 0));
        }
        while b < 256
            invariant
                frequencies.wf(),
                counts == frequencies.counts(),
                b <= 256,
                nodes@ == initial_nodes(counts, b as int),
            decreases 256 - b,
        {
            let c = frequencies.get(b as u8);
            if c > 0 {
                nodes.push(
                    (HuffmanNode::Leaf { byte: b as u8, fequency: c }, b as u64),
                );
            }
            proof {
                if counts[b as int] > 0 {
                    assert(nodes@ =~= initial_nodes(counts, b as int + 1));
                } else {
                    assert(nodes@ =~= initial_nodes(counts, b as int + 1));
                }
            }
            b = b + 1;
        }
        proof {
            lemma_initial_nodes_weights(counts, 256);
            assert(counts.take(256) =~= counts);
            let ghost wb = choose|w: u8| frequencies.count(w) != 0;
            lemma_initial_nodes_nonempty(counts, 256, wb as int);
            lemma_initial_nodes_len(counts, 256);
        }
        let ghost w0 = sum_weights(nodes@);
        let ghost result = merge_all(nodes@, 256);
        let ghost k0 = nodes@.len() as int + 256;
        let mut next_key: u64 = 256;
        while nodes.len() > 1
            invariant
                nodes@.len() >= 1,
                sum_weights(nodes@) == w0,
                w0 <= u64::MAX,
                merge_all(nodes@, next_key) == result,
                nodes@.len() as int + next_key as int == k0,
                k0 <= 512,
            decreases nodes@.len(),
        {
            let ghost s = nodes@;
            let ghost nk = next_key;
            let i = min_node_idx(&nodes);
            let left = nodes.remove(i);
            let j = min_node_idx(&nodes);
            let right = nodes.remove(j);
            proof {
                lemma_sum_weights_remove(s, i as int);
                lemma_sum_weights_remove(s.remove(i as int), j as int);
            }
            let frequency = left.0.frequency() + right.0.frequency();
            let node = HuffmanNode::Internal {
                left: Box::new(left.0),
                right: Box::new(right.0),
                frequency,
            };
            nodes.push((node, next_key));
            next_key = next_key + 1;
            proof {
                let s1 = s.remove(min_idx(s));
                let s2 = s1.remove(min_idx(s1));
                assert(nodes@ =~= s2.push((combine(s[min_idx(s)].0, s1[min_idx(s1)].0), nk)));
                assert(merge_all(s, nk) == merge_all(nodes@, next_key));
                lemma_sum_weights_push(s2, (combine(s[min_idx(s)].0, s1[min_idx(s1)].0), nk));
            }
        }
        let pair = nodes.pop().unwrap();
        proof {
            assert(merge_all(nodes@.push(pair), next_key) == pair.0);
            let init = initial_nodes(counts, 256);
            lemma_merge_all_leaf_count(init, 256);
            lemma_initial_nodes_leaves(counts, 256);
            lemma_height_lt_leaf_count(pair.0);
            assert forall|b: u8| leaf_syms(pair.0).contains(b) <==> frequencies.count(b)
                > 0 by {
                lemma_merge_all_syms(init, 256, b);
                lemma_initial_nodes_syms(counts, 256, b);
            }
        }
        pair.0
    }

    /// Derives each leaf's depth and builds the canonical code table from the
    /// sorted `(length, symbol)` pairs.
    pub fn to_byte_map(&self) -> (m: ByteMap)
        requires
            height(*self) <= 63,
        ensures
            m.wf(),
            m.order() == canon_order(spec_code_lengths(*self, 0)),
            forall|b: u8| m.entry(b) == sym_code_full(m.order(), b),
            forall|b: u8| m.entry(b).is_some() <==> has_symbol(m.order(), b),
            forall|b: u8|
                (#[trigger] m.entry(b)).is_some() ==> exists|i: int|
                    0 <= i < m.order().len() && (#[trigger] m.order()[i]).byte == b && m.entry(b)
                        == Some(canon_entries(m.order())[i]),
    {
        let mut lens: Vec<CodeLength> = Vec::new();
        self.traverse(0, &mut lens);
        proof {
            assert(lens@ =~= spec_code_lengths(*self, 0));
            lemma_code_lengths_of_tree(*self, 0);
            if lens@.len() != 1 {
                assert(leaf_count(*self) >= 2) by {
                    if leaf_count(*self) < 2 {
                        match *self {
                            HuffmanNode::Leaf { .. } => {
                                assert(lens@.len() == 1);
                            },
                            HuffmanNode::Internal { left, right, .. } => {
                                lemma_height_lt_leaf_count(*left);
                                lemma_height_lt_leaf_count(*right);
                            },
                        }
                    }
                }
                lemma_kraft_tree(*self, 0, 63);
                lemma_sort_lengths_ensures(lens@, 63);
                let sorted = sort_lengths(lens@);
                assert forall|i: int| 0 <= i < sorted.len() implies 1 <= (#[trigger] sorted[i]).len
                    as nat <= 63 by {
                    assert(lens@.contains(sorted[i]));
                    let k = choose|k: int| 0 <= k < lens@.len() && lens@[k] == sorted[i];
                    assert(lens@[k].len as nat >= 1);
                    assert(lens@[k].len as nat <= height(*self));
                }
                assert(lens_ok(sorted, 63));
                assert(kraft_sum(sorted, 63) <= pow2(63));
            }
        }
        ByteMap::new(&mut lens)
    }

    /// Records each leaf's symbol and depth, appending to `out` in
    /// left-to-right leaf order; `depth` is the depth of this subtree's root.
    pub fn traverse(&self, depth: u8, out: &mut Vec<CodeLength>)
        requires
            depth as nat + height(*self) <= 255,
        ensures
            final(out)@ == old(out)@ + spec_code_lengths(*self, depth as nat),
        decreases *self,
    {
        match self {
            HuffmanNode::Leaf { byte, .. } => {
                out.push(CodeLength { byte: *byte, len: depth });
                proof {
                    assert(final(out)@ =~= old(out)@ + spec_code_lengths(*self, depth as nat));
                }
            },
            HuffmanNode::Internal { left, right, .. } => {
                left.traverse(depth + 1, out);
                right.traverse(depth + 1, out);
                proof {
                    assert(final(out)@ =~= old(out)@ + spec_code_lengths(*self, depth as nat));
                }
            },
        }
    }
}

/// The index of the minimal pending node, by ascending weight with ties
/// broken by ascending key.
fn min_node_idx(nodes: &Vec<(HuffmanNode, u64)>) -> (r: usize)
    requires
        nodes@.len() >= 1,
    ensures
        r as int == min_idx(nodes@),
        r < nodes@.len(),
{
    proof {
        lemma_min_idx_bounds(nodes@);
    }
    let mut best: usize = 0;
    let mut i: usize = 1;
    while i < nodes.len()
        invariant
            1 <= i <= nodes@.len(),
            best < i,
            best as int == min_idx(nodes@.take(i as int)),
        decreases nodes@.len() - i,
    {
        proof {
            lemma_min_idx_bounds(nodes@.take(i as int));
        }
        let wi = nodes[i].0.frequency();
        let wb = nodes[best].0.frequency();
        let better: bool = wi < wb || (wi == wb && nodes[i].1 < nodes[best].1);
        proof {
            assert(nodes@.take(i as int + 1).drop_last() =~= nodes@.take(i as int));
            assert(nodes@.take(i as int + 1).last() == nodes@[i as int]);
            assert(better == node_lt(nodes@[i as int], nodes@[min_idx(nodes@.take(i as int))]));
        }
        if better {
            best = i;
        }
        i = i + 1;
    }
    proof {
        assert(nodes@.take(nodes@.len() as int) =~= nodes@);
    }
    best
}

} // verus!
