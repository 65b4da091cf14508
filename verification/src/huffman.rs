//! Huffman coding: each byte gets a prefix-free code from a tree built by
//! merging the two lightest subtrees until one is left; a header of the 256
//! byte counts lets the decoder build the same tree.
use vstd::prelude::*;
use vstd::multiset::Multiset;
use vstd::arithmetic::power2::{lemma_pow2_unfold, pow2};
use crate::heap::{heap_ordered, lemma_pop, lemma_pop_ordered, lemma_push, lemma_push_ordered, pop, heap_pop, push, heap_push, Entry};
use crate::bits::{bit_length, chunks_for, lemma_bit_length, lemma_bit_length_zero, byte_padding, bytes_bits, lemma_value_of_low_bits, lemma_value_of_short, lemma_value_of_single, low_bits, mask, num_words,
    padded_bits, value_of, zeros};
use crate::bitreader::{bits_at, lemma_varint_roundtrip, varint_parse, BitReader, DecodeError, Parsed, ReadError};
use crate::bitwriter::{lemma_varint_len, varint_bits, BitWriter};
use crate::tables::{code_table, code_table_get, code_table_insert, count_table, count_table_get, count_table_insert, new_code_table,
    new_count_table, new_symbol_table, symbol_table, symbol_table_get, symbol_table_insert, CodeTable, CountTable};

verus! {

/// A node of a Huffman tree; the nodes live in a vector, and an internal
/// node names its children by their places in it.
#[derive(Debug, Clone, Copy, PartialEq, Eq)]
pub enum Node {
    /// A byte and its count.
    Leaf { symbol: u8, freq: u64 },
    /// Two subtrees and their summed counts.
    Internal { freq: u64, left: usize, right: usize },
}

impl Node {
    /// The node's count.
    pub fn freq(&self) -> (r: u64)
        ensures
            r == match *self {
                Node::Leaf { freq, .. } => freq,
                Node::Internal { freq, .. } => freq,
            },
    {
        match self {
            Node::Leaf { freq, .. } => *freq,
            Node::Internal { freq, .. } => *freq,
        }
    }
}

/// The bytes at the leaves under node `id`.
pub open spec fn leaves(arena: Seq<Node>, id: nat) -> Set<u8>
    decreases id,
{
    if id >= arena.len() {
        Set::empty()
    } else {
        match arena[id as int] {
            Node::Leaf { symbol, .. } => set![symbol],
            Node::Internal { left, right, .. } => if left < id && right < id {
                leaves(arena, left as nat) + leaves(arena, right as nat)
            } else {
                Set::empty()
            },
        }
    }
}

/// Node `id` heads a tree: children come before their parents and no byte
/// sits under both children of a node.
pub open spec fn wf_node(arena: Seq<Node>, id: nat) -> bool
    decreases id,
{
    id < arena.len() && match arena[id as int] {
        Node::Leaf { .. } => true,
        Node::Internal { left, right, .. } => {
            &&& left < id
            &&& right < id
            &&& wf_node(arena, left as nat)
            &&& wf_node(arena, right as nat)
            &&& leaves(arena, left as nat).disjoint(leaves(arena, right as nat))
        },
    }
}

/// The codes of the bytes under node `id`, each the path to its leaf after
/// `prefix`: `false` for a left turn, `true` for a right one. Where a byte
/// sits under both children, the right one's code stands.
pub open spec fn tree_codes(arena: Seq<Node>, id: nat, prefix: Seq<bool>) -> Map<u8, Seq<bool>>
    decreases id,
{
    if id >= arena.len() {
        Map::empty()
    } else {
        match arena[id as int] {
            Node::Leaf { symbol, .. } => map![symbol => prefix],
            Node::Internal { left, right, .. } => if left < id && right < id {
                tree_codes(arena, left as nat, prefix.push(false)).union_prefer_right(
                    tree_codes(arena, right as nat, prefix.push(true)),
                )
            } else {
                Map::empty()
            },
        }
    }
}

/// `a` is a prefix of `b`.
pub open spec fn is_prefix(a: Seq<bool>, b: Seq<bool>) -> bool {
    a.len() <= b.len() && b.subrange(0, a.len() as int) == a
}

/// No code is a prefix of another byte's code.
pub open spec fn prefix_free(codes: Map<u8, Seq<bool>>) -> bool {
    forall|x: u8, y: u8|
        #![trigger codes[x], codes[y]]
        codes.contains_key(x) && codes.contains_key(y) && x != y ==> !is_prefix(codes[y], codes[x])
}

/// The codes of a tree are the bytes at its leaves, start with the prefix,
/// are longer than it under an internal node, and are prefix-free.
pub proof fn lemma_tree_codes(arena: Seq<Node>, id: nat, prefix: Seq<bool>)
    requires
        wf_node(arena, id),
    ensures
        tree_codes(arena, id, prefix).dom() == leaves(arena, id),
        forall|x: u8| #[trigger] tree_codes(arena, id, prefix).contains_key(x) ==> is_prefix(prefix, tree_codes(arena, id, prefix)[x]),
        arena[id as int] is Internal ==> forall|x: u8| #[trigger] tree_codes(arena, id, prefix).contains_key(x) ==> tree_codes(arena, id, prefix)[x].len() > prefix.len(),
        prefix_free(tree_codes(arena, id, prefix)),
    decreases id,
{
    let m = tree_codes(arena, id, prefix);
    match arena[id as int] {
        Node::Leaf { symbol, .. } => {
            assert(m.dom() =~= set![symbol]);
            assert(prefix.subrange(0, prefix.len() as int) =~= prefix);
        },
        Node::Internal { left, right, .. } => {
            let pl = prefix.push(false);
            let pr = prefix.push(true);
            lemma_tree_codes(arena, left as nat, pl);
            lemma_tree_codes(arena, right as nat, pr);
            let ml = tree_codes(arena, left as nat, pl);
            let mr = tree_codes(arena, right as nat, pr);
            assert(m == ml.union_prefer_right(mr));
            assert(m.dom() =~= leaves(arena, id));
            assert forall|x: u8| #[trigger] m.contains_key(x) implies is_prefix(prefix, m[x]) && m[x].len() > prefix.len() by {
                let p2 = if mr.contains_key(x) { pr } else { pl };
                assert(is_prefix(p2, m[x]));
                assert(m[x].subrange(0, prefix.len() as int) =~= p2.subrange(0, prefix.len() as int));
                assert(p2.subrange(0, prefix.len() as int) =~= prefix);
            }
            assert forall|x: u8, y: u8|
                #![trigger m[x], m[y]]
                m.contains_key(x) && m.contains_key(y) && x != y implies !is_prefix(m[y], m[x]) by {
                let n = prefix.len();
                if mr.contains_key(x) && mr.contains_key(y) {
                    assert(mr[x] == m[x] && mr[y] == m[y]);
                } else if !mr.contains_key(x) && !mr.contains_key(y) {
                    assert(ml[x] == m[x] && ml[y] == m[y]);
                } else {
                    if is_prefix(m[y], m[x]) {
                        assert(m[x].subrange(0, pl.len() as int)[n as int] == m[x][n as int]);
                        assert(m[y].subrange(0, pl.len() as int)[n as int] == m[y][n as int]);
                        if mr.contains_key(x) {
                            assert(m[x][n as int] == pr[n as int]);
                            assert(m[y][n as int] == pl[n as int]);
                            assert(m[x].subrange(0, m[y].len() as int)[n as int] == m[x][n as int]);
                        } else {
                            assert(m[x][n as int] == pl[n as int]);
                            assert(m[y][n as int] == pr[n as int]);
                            assert(m[x].subrange(0, m[y].len() as int)[n as int] == m[x][n as int]);
                        }
                    }
                }
            }
        },
    }
}

/// The counts of the bytes in `t`, summed.
pub open spec fn weight(freqs: Seq<u64>, t: Set<u8>, n: nat) -> nat
    decreases n,
{
    if n == 0 {
        0
    } else {
        weight(freqs, t, (n - 1) as nat) + if t.contains((n - 1) as u8) { freqs[n - 1] as nat } else { 0 }
    }
}

/// The sum of all 256 counts.
pub open spec fn total_count(freqs: Seq<u64>) -> nat {
    weight(freqs, Set::full(), 256)
}

proof fn lemma_weight_union(freqs: Seq<u64>, a: Set<u8>, b: Set<u8>, n: nat)
    requires
        a.disjoint(b),
        n <= 256,
    ensures
        weight(freqs, a + b, n) == weight(freqs, a, n) + weight(freqs, b, n),
        weight(freqs, a, n) <= weight(freqs, Set::full(), n),
    decreases n,
{
    if n > 0 {
        lemma_weight_union(freqs, a, b, (n - 1) as nat);
        let s = (n - 1) as u8;
        assert(!(a.contains(s) && b.contains(s)));
    }
}

proof fn lemma_weight_subset(freqs: Seq<u64>, a: Set<u8>, b: Set<u8>, n: nat)
    requires
        a.subset_of(b),
    ensures
        weight(freqs, a, n) <= weight(freqs, b, n),
    decreases n,
{
    if n > 0 {
        lemma_weight_subset(freqs, a, b, (n - 1) as nat);
    }
}

proof fn lemma_weight_single(freqs: Seq<u64>, x: u8, n: nat)
    requires
        n <= 256,
    ensures
        weight(freqs, set![x], n) == if (x as nat) < n { freqs[x as int] as nat } else { 0 },
    decreases n,
{
    if n > 0 {
        lemma_weight_single(freqs, x, (n - 1) as nat);
        assert(set![x].contains((n - 1) as u8) == (x as nat == n - 1));
    }
}

/// Appending a node changes nothing under the nodes before it.
proof fn lemma_arena_push(arena: Seq<Node>, n: Node, id: nat)
    requires
        id < arena.len(),
    ensures
        leaves(arena.push(n), id) == leaves(arena, id),
        wf_node(arena.push(n), id) == wf_node(arena, id),
        forall|p: Seq<bool>| #[trigger] tree_codes(arena.push(n), id, p) == tree_codes(arena, id, p),
    decreases id,
{
    let a2 = arena.push(n);
    assert(a2[id as int] == arena[id as int]);
    match arena[id as int] {
        Node::Leaf { .. } => {},
        Node::Internal { left, right, .. } => {
            if left < id && right < id {
                lemma_arena_push(arena, n, left as nat);
                lemma_arena_push(arena, n, right as nat);
                assert forall|p: Seq<bool>| #[trigger] tree_codes(a2, id, p) == tree_codes(arena, id, p) by {
                    assert(tree_codes(a2, left as nat, p.push(false)) == tree_codes(arena, left as nat, p.push(false)));
                    assert(tree_codes(a2, right as nat, p.push(true)) == tree_codes(arena, right as nat, p.push(true)));
                }
            }
        },
    }
}

/// Every tree has a leaf.
proof fn lemma_leaves_nonempty(arena: Seq<Node>, id: nat)
    requires
        wf_node(arena, id),
    ensures
        exists|x: u8| leaves(arena, id).contains(x),
    decreases id,
{
    match arena[id as int] {
        Node::Leaf { symbol, .. } => {
            assert(leaves(arena, id).contains(symbol));
        },
        Node::Internal { left, right, .. } => {
            lemma_leaves_nonempty(arena, left as nat);
            let x = choose|x: u8| leaves(arena, left as nat).contains(x);
            assert(leaves(arena, id).contains(x));
        },
    }
}

/// The leaves of the bytes of `keys` below `n`, in byte order, each with its
/// count.
pub open spec fn leaf_arena(freqs: Seq<u64>, keys: Set<u8>, n: nat) -> Seq<Node>
    decreases n,
{
    if n == 0 {
        Seq::empty()
    } else if keys.contains((n - 1) as u8) {
        leaf_arena(freqs, keys, (n - 1) as nat).push(Node::Leaf { symbol: (n - 1) as u8, freq: freqs[n - 1] })
    } else {
        leaf_arena(freqs, keys, (n - 1) as nat)
    }
}

/// The heap after pushing, in byte order, the leaves of the bytes of `keys`
/// below `n`, each entry naming the leaf's place among them.
pub open spec fn leaf_heap(freqs: Seq<u64>, keys: Set<u8>, n: nat) -> Seq<Entry>
    decreases n,
{
    if n == 0 {
        Seq::empty()
    } else if keys.contains((n - 1) as u8) {
        push(
            leaf_heap(freqs, keys, (n - 1) as nat),
            (freqs[n - 1], leaf_arena(freqs, keys, (n - 1) as nat).len() as usize),
        )
    } else {
        leaf_heap(freqs, keys, (n - 1) as nat)
    }
}

/// Merging the two lightest subtrees of the heap into a new node, first
/// popped on the left, until one is left; gives the nodes and the root, or
/// nothing when a merged count passes 64 bits or the heap is empty.
pub open spec fn merge_all(h: Seq<Entry>, arena: Seq<Node>) -> Option<(Seq<Node>, usize)>
    decreases h.len(),
{
    if h.len() == 0 {
        None
    } else if h.len() == 1 {
        Some((arena, h[0].1))
    } else {
        let (a, h1) = pop(h);
        let (b, h2) = pop(h1);
        if a.0 + b.0 > u64::MAX {
            None
        } else {
            let e: Entry = ((a.0 + b.0) as u64, arena.len() as usize);
            proof {
                lemma_pop(h);
                lemma_pop(h1);
                lemma_push(h2, e);
            }
            merge_all(push(h2, e), arena.push(Node::Internal { freq: e.0, left: a.1, right: b.1 }))
        }
    }
}

/// Every merge that `merge_all` makes from this heap on pairs an entry of
/// least weight with an entry of least weight among the rest.
pub open spec fn merges_lightest(h: Seq<Entry>, arena: Seq<Node>) -> bool
    decreases h.len(),
{
    if h.len() < 2 {
        true
    } else {
        let (a, h1) = pop(h);
        let (b, h2) = pop(h1);
        &&& forall|i: int| 0 <= i < h.len() ==> a.0 <= #[trigger] h[i].0
        &&& forall|i: int| 0 <= i < h1.len() ==> b.0 <= #[trigger] h1[i].0
        &&& (a.0 + b.0 <= u64::MAX ==> {
            let e: Entry = ((a.0 + b.0) as u64, arena.len() as usize);
            proof {
                lemma_pop(h);
                lemma_pop(h1);
                lemma_push(h2, e);
            }
            merges_lightest(push(h2, e), arena.push(Node::Internal { freq: e.0, left: a.1, right: b.1 }))
        })
    }
}

proof fn lemma_merges_lightest(h: Seq<Entry>, arena: Seq<Node>)
    requires
        heap_ordered(h),
    ensures
        merges_lightest(h, arena),
    decreases h.len(),
{
    if h.len() >= 2 {
        let (a, h1) = pop(h);
        let (b, h2) = pop(h1);
        lemma_pop(h);
        lemma_pop(h1);
        lemma_pop_ordered(h);
        lemma_pop_ordered(h1);
        if a.0 + b.0 <= u64::MAX {
            let e: Entry = ((a.0 + b.0) as u64, arena.len() as usize);
            lemma_push(h2, e);
            lemma_push_ordered(h2, e);
            lemma_merges_lightest(push(h2, e), arena.push(Node::Internal { freq: e.0, left: a.1, right: b.1 }));
        }
    }
}

proof fn lemma_leaf_heap_ordered(freqs: Seq<u64>, keys: Set<u8>, n: nat)
    ensures
        heap_ordered(leaf_heap(freqs, keys, n)),
    decreases n,
{
    if n > 0 {
        lemma_leaf_heap_ordered(freqs, keys, (n - 1) as nat);
        if keys.contains((n - 1) as u8) {
            lemma_push_ordered(
                leaf_heap(freqs, keys, (n - 1) as nat),
                (freqs[n - 1], leaf_arena(freqs, keys, (n - 1) as nat).len() as usize),
            );
        }
    }
}

/// The Huffman tree is built by always merging two of the lightest subtrees
/// left: the lightest, and the lightest of the others.
pub proof fn lemma_huffman_merges_lightest(freqs: Seq<u64>, keys: Set<u8>)
    ensures
        merges_lightest(leaf_heap(freqs, keys, 256), leaf_arena(freqs, keys, 256)),
{
    lemma_leaf_heap_ordered(freqs, keys, 256);
    lemma_merges_lightest(leaf_heap(freqs, keys, 256), leaf_arena(freqs, keys, 256));
}

/// The Huffman tree of the counts of the bytes of `keys`: its nodes and its
/// root; nothing when a merged count passes 64 bits.
pub open spec fn table_tree(freqs: Seq<u64>, keys: Set<u8>) -> Option<(Seq<Node>, usize)> {
    merge_all(leaf_heap(freqs, keys, 256), leaf_arena(freqs, keys, 256))
}

/// The code of each byte of `keys` for their counts.
pub open spec fn table_codes(freqs: Seq<u64>, keys: Set<u8>) -> Option<Map<u8, Seq<bool>>> {
    match table_tree(freqs, keys) {
        Some((arena, root)) => Some(tree_codes(arena, root as nat, Seq::empty())),
        None => None,
    }
}

/// The Huffman tree of the counts of all 256 bytes.
pub open spec fn huffman_tree(freqs: Seq<u64>) -> Option<(Seq<Node>, usize)> {
    table_tree(freqs, Set::full())
}

/// The code of each byte for the counts of all 256 bytes.
pub open spec fn huffman_codes(freqs: Seq<u64>) -> Option<Map<u8, Seq<bool>>> {
    table_codes(freqs, Set::full())
}

/// What holds of the heap while it merges: its entries are distinct trees
/// over disjoint sets of the bytes of `keys` that together hold all of them,
/// each weighing the counts of its bytes.
pub open spec fn merge_inv(h: Seq<Entry>, arena: Seq<Node>, freqs: Seq<u64>, keys: Set<u8>) -> bool {
    let m = h.to_multiset();
    &&& freqs.len() == 256
    &&& arena.len() + h.len() <= 512
    &&& forall|e: Entry| #[trigger] m.contains(e) ==> {
        &&& (e.1 as nat) < arena.len()
        &&& wf_node(arena, e.1 as nat)
        &&& e.0 as nat == weight(freqs, leaves(arena, e.1 as nat), 256)
        &&& m.count(e) == 1
        &&& leaves(arena, e.1 as nat).subset_of(keys)
    }
    &&& forall|e1: Entry, e2: Entry|
        #![trigger m.contains(e1), m.contains(e2)]
        m.contains(e1) && m.contains(e2) && e1 != e2 ==> leaves(arena, e1.1 as nat).disjoint(leaves(arena, e2.1 as nat))
    &&& forall|x: u8| keys.contains(x) ==> #[trigger] covers(m, arena, x)
}

/// Some entry of the heap has byte `x` under it.
pub open spec fn covers(m: Multiset<Entry>, arena: Seq<Node>, x: u8) -> bool {
    exists|e: Entry| #[trigger] m.contains(e) && leaves(arena, e.1 as nat).contains(x)
}

/// One merge keeps what holds of the heap, and its sum is at most the sum of
/// all counts.
proof fn lemma_merge_step(h: Seq<Entry>, arena: Seq<Node>, freqs: Seq<u64>, keys: Set<u8>)
    requires
        merge_inv(h, arena, freqs, keys),
        h.len() >= 2,
    ensures
        ({
            let (a, h1) = pop(h);
            let (b, h2) = pop(h1);
            let e: Entry = ((a.0 + b.0) as u64, arena.len() as usize);
            &&& a.0 + b.0 <= weight(freqs, keys, 256)
            &&& (a.0 + b.0 <= u64::MAX ==> merge_inv(
                push(h2, e),
                arena.push(Node::Internal { freq: e.0, left: a.1, right: b.1 }),
                freqs,
                keys,
            ))
        }),
{
    broadcast use vstd::multiset::group_multiset_axioms, vstd::multiset::group_multiset_properties;
    let m = h.to_multiset();
    let (a, h1) = pop(h);
    lemma_pop(h);
    let m1 = h1.to_multiset();
    let (b, h2) = pop(h1);
    lemma_pop(h1);
    let m2 = h2.to_multiset();
    assert(m.count(a) == 1);
    assert(m1.count(a) == 0);
    assert(m.contains(b)) by {
        assert(m1.count(b) >= 1);
        assert(m.count(b) == m1.count(b) + if a == b { 1nat } else { 0nat });
    }
    assert(a != b);
    assert(m1.count(b) == 1);
    assert(m2.count(b) == 0);
    assert(m2.count(a) == 0);
    assert(forall|x: Entry| #[trigger] m2.contains(x) ==> m.contains(x) && x != a && x != b && m2.count(x) == m.count(x)) by {
        assert forall|x: Entry| #[trigger] m2.contains(x) implies m.contains(x) && x != a && x != b && m2.count(x) == m.count(x) by {
            assert(m1.count(x) == m2.count(x) + if x == b { 1nat } else { 0nat });
            assert(m.count(x) == m1.count(x) + if x == a { 1nat } else { 0nat });
        }
    }
    assert(forall|x: Entry| #[trigger] m.contains(x) && x != a && x != b ==> m2.contains(x)) by {
        assert forall|x: Entry| #[trigger] m.contains(x) && x != a && x != b implies m2.contains(x) by {
            assert(m1.count(x) == m2.count(x) + if x == b { 1nat } else { 0nat });
            assert(m.count(x) == m1.count(x) + if x == a { 1nat } else { 0nat });
        }
    }
    let la = leaves(arena, a.1 as nat);
    let lb = leaves(arena, b.1 as nat);
    assert(la.disjoint(lb));
    lemma_weight_union(freqs, la, lb, 256);
    lemma_weight_subset(freqs, la + lb, keys, 256);
    if a.0 + b.0 <= u64::MAX {
        let id = arena.len();
        let e: Entry = ((a.0 + b.0) as u64, id as usize);
        let node = Node::Internal { freq: e.0, left: a.1, right: b.1 };
        let a2 = arena.push(node);
        let h3 = push(h2, e);
        lemma_push(h2, e);
        let m3 = h3.to_multiset();
        assert(m3 == m2.insert(e));
        lemma_arena_push(arena, node, a.1 as nat);
        lemma_arena_push(arena, node, b.1 as nat);
        assert(a2[id as int] == node);
        assert(leaves(a2, id) == la + lb);
        assert(wf_node(a2, id));
        assert(m2.count(e) == 0) by {
            if m2.contains(e) {
                assert(m.contains(e));
            }
        }
        assert forall|x: Entry| #[trigger] m3.contains(x) implies {
            &&& (x.1 as nat) < a2.len()
            &&& wf_node(a2, x.1 as nat)
            &&& x.0 as nat == weight(freqs, leaves(a2, x.1 as nat), 256)
            &&& m3.count(x) == 1
            &&& leaves(a2, x.1 as nat).subset_of(keys)
        } by {
            if x != e {
                assert(m2.contains(x));
                assert(m.contains(x));
                lemma_arena_push(arena, node, x.1 as nat);
            }
        }
        assert forall|e1: Entry, e2: Entry|
            #![trigger m3.contains(e1), m3.contains(e2)]
            m3.contains(e1) && m3.contains(e2) && e1 != e2 implies leaves(a2, e1.1 as nat).disjoint(leaves(a2, e2.1 as nat)) by {
            if e1 == e {
                assert(m2.contains(e2));
                lemma_arena_push(arena, node, e2.1 as nat);
                assert(m.contains(a) && m.contains(e2) && a != e2);
                assert(m.contains(b) && b != e2);
            } else if e2 == e {
                assert(m2.contains(e1));
                lemma_arena_push(arena, node, e1.1 as nat);
                assert(m.contains(a) && m.contains(e1) && a != e1);
                assert(m.contains(b) && b != e1);
            } else {
                assert(m2.contains(e1) && m2.contains(e2));
                assert(m.contains(e1) && m.contains(e2));
                lemma_arena_push(arena, node, e1.1 as nat);
                lemma_arena_push(arena, node, e2.1 as nat);
            }
        }
        assert forall|x: u8| keys.contains(x) implies #[trigger] covers(m3, a2, x) by {
            assert(covers(m, arena, x));
            let c = choose|c: Entry| #[trigger] m.contains(c) && leaves(arena, c.1 as nat).contains(x);
            if c == a || c == b {
                assert(m3.contains(e) && leaves(a2, e.1 as nat).contains(x));
            } else {
                assert(m2.contains(c));
                lemma_arena_push(arena, node, c.1 as nat);
                assert(m3.contains(c) && leaves(a2, c.1 as nat).contains(x));
            }
        }
    }
}

proof fn lemma_merge_all(h: Seq<Entry>, arena: Seq<Node>, freqs: Seq<u64>, keys: Set<u8>, k0: u8)
    requires
        merge_inv(h, arena, freqs, keys),
        keys.contains(k0),
    ensures
        (merge_all(h, arena) is Some) == (weight(freqs, keys, 256) <= u64::MAX),
        merge_all(h, arena) matches Some((ar, root)) ==> wf_node(ar, root as nat) && leaves(ar, root as nat) == keys
            && ar.len() <= 512,
    decreases h.len(),
{
    broadcast use vstd::multiset::group_multiset_axioms, vstd::multiset::group_multiset_properties;
    let m = h.to_multiset();
    if h.len() == 0 {
        assert(covers(m, arena, k0));
        let c = choose|c: Entry| #[trigger] m.contains(c) && leaves(arena, c.1 as nat).contains(k0);
        vstd::seq_lib::to_multiset_len(h);
        assert(m.len() == 0);
        assert(false);
    } else if h.len() == 1 {
        vstd::seq_lib::to_multiset_contains(h, h[0]);
        assert(h =~= seq![h[0]]);
        assert forall|x: Entry| #[trigger] m.contains(x) implies x == h[0] by {
            vstd::seq_lib::to_multiset_contains(h, x);
        }
        assert(m.contains(h[0]));
        assert(leaves(arena, h[0].1 as nat).subset_of(keys));
        assert forall|x: u8| #[trigger] leaves(arena, h[0].1 as nat).contains(x) <==> keys.contains(x) by {
            if keys.contains(x) {
                assert(covers(m, arena, x));
            }
        }
        assert(leaves(arena, h[0].1 as nat) =~= keys);
        assert(m.contains(h[0]));
        assert(wf_node(arena, h[0].1 as nat));
        assert(h[0].0 as nat == weight(freqs, keys, 256));
        assert(merge_all(h, arena) == Some((arena, h[0].1)));
    } else {
        lemma_merge_step(h, arena, freqs, keys);
        let (a, h1) = pop(h);
        let (b, h2) = pop(h1);
        lemma_pop(h);
        lemma_pop(h1);
        if a.0 + b.0 <= u64::MAX {
            let e: Entry = ((a.0 + b.0) as u64, arena.len() as usize);
            lemma_push(h2, e);
            let a2 = arena.push(Node::Internal { freq: e.0, left: a.1, right: b.1 });
            assert(merge_inv(push(h2, e), a2, freqs, keys));
            lemma_merge_all(push(h2, e), a2, freqs, keys, k0);
            assert(merge_all(h, arena) == merge_all(push(h2, e), a2));
        }
    }
}

/// The byte of a leaf.
pub open spec fn leaf_symbol(n: Node) -> u8 {
    match n {
        Node::Leaf { symbol, .. } => symbol,
        Node::Internal { .. } => 0,
    }
}

/// The leaves and their heap: leaves of distinct bytes of `keys` in byte
/// order, one heap entry for each.
proof fn lemma_leaf_start(freqs: Seq<u64>, keys: Set<u8>, n: nat)
    requires
        n <= 256,
        freqs.len() == 256,
    ensures
        ({
            let a = leaf_arena(freqs, keys, n);
            let m = leaf_heap(freqs, keys, n).to_multiset();
            &&& leaf_heap(freqs, keys, n).len() == a.len()
            &&& a.len() <= n
            &&& forall|i: int| 0 <= i < a.len() ==> {
                &&& #[trigger] a[i] == Node::Leaf { symbol: leaf_symbol(a[i]), freq: freqs[leaf_symbol(a[i]) as int] }
                &&& keys.contains(leaf_symbol(a[i]))
                &&& (leaf_symbol(a[i]) as nat) < n
            }
            &&& forall|i: int, j: int| 0 <= i < j < a.len() ==> leaf_symbol(#[trigger] a[i]) < leaf_symbol(#[trigger] a[j])
            &&& forall|x: u8| keys.contains(x) && (x as nat) < n ==> exists|i: int| 0 <= i < a.len() && leaf_symbol(#[trigger] a[i]) == x
            &&& forall|e: Entry| #[trigger] m.contains(e) <==> ((e.1 as nat) < a.len() && e.0 == freqs[leaf_symbol(a[e.1 as int]) as int])
            &&& forall|e: Entry| m.contains(e) ==> #[trigger] m.count(e) == 1
        }),
    decreases n,
{
    broadcast use vstd::multiset::group_multiset_axioms, vstd::multiset::group_multiset_properties;
    if n == 0 {
        vstd::seq_lib::to_multiset_len(leaf_heap(freqs, keys, 0));
        vstd::multiset::lemma_multiset_empty_len(leaf_heap(freqs, keys, 0).to_multiset());
        assert(leaf_heap(freqs, keys, 0).to_multiset() =~= Multiset::<Entry>::empty());
    } else {
        let k = (n - 1) as nat;
        lemma_leaf_start(freqs, keys, k);
        let a0 = leaf_arena(freqs, keys, k);
        let h0 = leaf_heap(freqs, keys, k);
        let m0 = h0.to_multiset();
        let a = leaf_arena(freqs, keys, n);
        let m = leaf_heap(freqs, keys, n).to_multiset();
        let x = k as u8;
        if keys.contains(x) {
            let ne: Entry = (freqs[k as int], a0.len() as usize);
            let leaf = Node::Leaf { symbol: x, freq: freqs[k as int] };
            lemma_push(h0, ne);
            assert(a == a0.push(leaf));
            assert(m == m0.insert(ne));
            assert(a[a0.len() as int] == leaf);
            assert(leaf_symbol(leaf) == x);
            assert(!m0.contains(ne));
            assert forall|i: int| 0 <= i < a.len() implies {
                &&& #[trigger] a[i] == Node::Leaf { symbol: leaf_symbol(a[i]), freq: freqs[leaf_symbol(a[i]) as int] }
                &&& keys.contains(leaf_symbol(a[i]))
                &&& (leaf_symbol(a[i]) as nat) < n
            } by {
                if i < a0.len() {
                    assert(a[i] == a0[i]);
                }
            }
            assert forall|i: int, j: int| 0 <= i < j < a.len() implies leaf_symbol(#[trigger] a[i]) < leaf_symbol(#[trigger] a[j]) by {
                assert(a[i] == a0[i]);
                if j < a0.len() {
                    assert(a[j] == a0[j]);
                }
            }
            assert forall|y: u8| keys.contains(y) && (y as nat) < n implies exists|i: int| 0 <= i < a.len() && leaf_symbol(#[trigger] a[i]) == y by {
                if y == x {
                    assert(leaf_symbol(a[a0.len() as int]) == y);
                } else {
                    let i = choose|i: int| 0 <= i < a0.len() && leaf_symbol(#[trigger] a0[i]) == y;
                    assert(a[i] == a0[i]);
                }
            }
            assert forall|e: Entry| #[trigger] m.contains(e) <==> ((e.1 as nat) < a.len() && e.0 == freqs[leaf_symbol(a[e.1 as int]) as int]) by {
                if (e.1 as nat) < a0.len() {
                    assert(a[e.1 as int] == a0[e.1 as int]);
                }
                if e == ne {
                    assert(m.contains(e));
                } else {
                    assert(m.contains(e) == m0.contains(e));
                    if (e.1 as nat) == a0.len() && e.0 == freqs[leaf_symbol(a[e.1 as int]) as int] {
                        assert(e == ne);
                    }
                }
            }
            assert forall|e: Entry| m.contains(e) implies #[trigger] m.count(e) == 1 by {
                if e != ne {
                    assert(m0.contains(e));
                }
            }
        } else {
            assert(a == a0);
            assert forall|y: u8| keys.contains(y) && (y as nat) < n implies exists|i: int| 0 <= i < a.len() && leaf_symbol(#[trigger] a[i]) == y by {
                assert(y != x);
            }
        }
    }
}

/// For a nonempty set of bytes, the merging ends in a tree exactly when the
/// counts sum to at most 64 bits; that tree holds exactly those bytes, and
/// its root is an internal node when there are two bytes or more.
pub proof fn lemma_table_tree(freqs: Seq<u64>, keys: Set<u8>, k0: u8)
    requires
        freqs.len() == 256,
        keys.contains(k0),
    ensures
        (table_tree(freqs, keys) is Some) == (weight(freqs, keys, 256) <= u64::MAX),
        table_tree(freqs, keys) matches Some((arena, root)) ==> {
            &&& wf_node(arena, root as nat)
            &&& leaves(arena, root as nat) == keys
            &&& arena.len() <= 512
            &&& (exists|y: u8| keys.contains(y) && y != k0) ==> arena[root as int] is Internal
            &&& keys == set![k0] ==> arena[root as int] is Leaf
        },
{
    broadcast use vstd::multiset::group_multiset_axioms, vstd::multiset::group_multiset_properties;
    let h = leaf_heap(freqs, keys, 256);
    let arena = leaf_arena(freqs, keys, 256);
    lemma_leaf_start(freqs, keys, 256);
    let m = h.to_multiset();
    assert forall|e: Entry| #[trigger] m.contains(e) implies {
        &&& (e.1 as nat) < arena.len()
        &&& wf_node(arena, e.1 as nat)
        &&& e.0 as nat == weight(freqs, leaves(arena, e.1 as nat), 256)
        &&& m.count(e) == 1
        &&& leaves(arena, e.1 as nat).subset_of(keys)
    } by {
        let i = e.1 as int;
        let x = leaf_symbol(arena[i]);
        assert(arena[i] == Node::Leaf { symbol: x, freq: freqs[x as int] });
        assert(leaves(arena, e.1 as nat) == set![x]);
        lemma_weight_single(freqs, x, 256);
    }
    assert forall|e1: Entry, e2: Entry|
        #![trigger m.contains(e1), m.contains(e2)]
        m.contains(e1) && m.contains(e2) && e1 != e2 implies leaves(arena, e1.1 as nat).disjoint(leaves(arena, e2.1 as nat)) by {
        let i = e1.1 as int;
        let j = e2.1 as int;
        assert(arena[i] == Node::Leaf { symbol: leaf_symbol(arena[i]), freq: freqs[leaf_symbol(arena[i]) as int] });
        assert(arena[j] == Node::Leaf { symbol: leaf_symbol(arena[j]), freq: freqs[leaf_symbol(arena[j]) as int] });
        assert(leaves(arena, e1.1 as nat) == set![leaf_symbol(arena[i])]);
        assert(leaves(arena, e2.1 as nat) == set![leaf_symbol(arena[j])]);
        assert(i != j);
        if i < j {
            assert(leaf_symbol(arena[i]) < leaf_symbol(arena[j]));
        } else {
            assert(leaf_symbol(arena[j]) < leaf_symbol(arena[i]));
        }
    }
    assert forall|x: u8| keys.contains(x) implies #[trigger] covers(m, arena, x) by {
        let i = choose|i: int| 0 <= i < arena.len() && leaf_symbol(#[trigger] arena[i]) == x;
        let e: Entry = (freqs[x as int], i as usize);
        assert(m.contains(e));
        assert(arena[i] == Node::Leaf { symbol: x, freq: freqs[x as int] });
        assert(leaves(arena, e.1 as nat) == set![x]);
    }
    lemma_merge_all(h, arena, freqs, keys, k0);
    if let Some((ar, root)) = table_tree(freqs, keys) {
        match ar[root as int] {
            Node::Leaf { symbol, .. } => {
                assert(leaves(ar, root as nat) == set![symbol]);
                if exists|y: u8| keys.contains(y) && y != k0 {
                    let y = choose|y: u8| keys.contains(y) && y != k0;
                    assert(set![symbol].contains(y) && set![symbol].contains(k0));
                }
            },
            Node::Internal { left, right, .. } => {
                if keys == set![k0] {
                    lemma_leaves_nonempty(ar, left as nat);
                    lemma_leaves_nonempty(ar, right as nat);
                    let a = choose|x: u8| leaves(ar, left as nat).contains(x);
                    let b = choose|x: u8| leaves(ar, right as nat).contains(x);
                    assert(leaves(ar, root as nat).contains(a) && leaves(ar, root as nat).contains(b));
                }
            },
        }
    }
}

/// The merging over all 256 bytes ends in a tree exactly when the counts
/// sum to at most 64 bits, and that tree holds every byte under an internal
/// root.
pub proof fn lemma_huffman_tree(freqs: Seq<u64>)
    requires
        freqs.len() == 256,
    ensures
        (huffman_tree(freqs) is Some) == (total_count(freqs) <= u64::MAX),
        huffman_tree(freqs) matches Some((arena, root)) ==> wf_node(arena, root as nat)
            && leaves(arena, root as nat) == Set::<u8>::full() && arena[root as int] is Internal && arena.len() <= 512,
{
    lemma_table_tree(freqs, Set::full(), 0);
    assert(Set::<u8>::full().contains(1u8));
}

/// For counts that sum to at most 64 bits there are codes: one for each byte
/// of `keys`, none the beginning of another's; with two bytes or more none
/// is empty, and a lone byte gets the empty code.
pub proof fn lemma_table_codes(freqs: Seq<u64>, keys: Set<u8>, k0: u8)
    requires
        freqs.len() == 256,
        keys.contains(k0),
    ensures
        (table_codes(freqs, keys) is Some) == (weight(freqs, keys, 256) <= u64::MAX),
        table_codes(freqs, keys) matches Some(codes) ==> {
            &&& codes.dom() == keys
            &&& prefix_free(codes)
            &&& (exists|y: u8| keys.contains(y) && y != k0) ==> forall|b: u8| #[trigger] codes.contains_key(b) ==> codes[b].len() > 0
            &&& keys == set![k0] ==> codes == map![k0 => Seq::<bool>::empty()]
        },
{
    lemma_table_tree(freqs, keys, k0);
    if let Some((arena, root)) = table_tree(freqs, keys) {
        lemma_tree_codes(arena, root as nat, Seq::empty());
        if keys == set![k0] {
            if let Node::Leaf { symbol, .. } = arena[root as int] {
                assert(leaves(arena, root as nat) == set![symbol]);
                assert(set![symbol].contains(k0));
                assert(tree_codes(arena, root as nat, Seq::empty()) =~= map![k0 => Seq::<bool>::empty()]);
            }
        }
    }
}

/// For counts that sum to at most 64 bits there are codes, and they give
/// every byte a nonempty code that no other byte's code begins with.
pub proof fn lemma_huffman_codes(freqs: Seq<u64>)
    requires
        freqs.len() == 256,
    ensures
        (huffman_codes(freqs) is Some) == (total_count(freqs) <= u64::MAX),
        huffman_codes(freqs) matches Some(codes) ==> {
            &&& forall|b: u8| #[trigger] codes.contains_key(b)
            &&& forall|b: u8| #[trigger] codes[b].len() > 0
            &&& prefix_free(codes)
        },
{
    lemma_table_codes(freqs, Set::full(), 0);
    assert(Set::<u8>::full().contains(1u8));
    if let Some(codes) = huffman_codes(freqs) {
        assert forall|b: u8| #[trigger] codes.contains_key(b) by {
            assert(Set::<u8>::full().contains(b));
        }
    }
}

/// The counts of the 256 bytes in a table that holds them all, in byte order.
pub open spec fn freqs_of(m: Map<u8, u64>) -> Seq<u64> {
    Seq::new(256, |i: int| m[i as u8])
}

/// Adds to `codes` the code of each byte under node `id`: the path to its
/// leaf, after `prefix`.
fn build_codes(arena: &Vec<Node>, id: usize, prefix: Vec<bool>, codes: &mut CodeTable)
    requires
        wf_node(arena@, id as nat),
    ensures
        code_table(*final(codes)) == code_table(*old(codes)).union_prefer_right(tree_codes(arena@, id as nat, prefix@)),
    decreases id,
{
    match arena[id] {
        Node::Leaf { symbol, .. } => {
            let ghost p = prefix@;
            code_table_insert(codes, symbol, prefix);
            proof {
                assert(code_table(*codes) =~= code_table(*old(codes)).union_prefer_right(map![symbol => p]));
            }
        },
        Node::Internal { left, right, .. } => {
            let ghost m0 = code_table(*codes);
            let mut left_prefix = prefix.clone();
            proof {
                assert(left_prefix@ =~= prefix@);
            }
            left_prefix.push(false);
            build_codes(arena, left, left_prefix, codes);
            let mut right_prefix = prefix;
            right_prefix.push(true);
            build_codes(arena, right, right_prefix, codes);
            proof {
                let ml = tree_codes(arena@, left as nat, prefix@.push(false));
                let mr = tree_codes(arena@, right as nat, prefix@.push(true));
                assert(code_table(*codes) =~= m0.union_prefer_right(ml.union_prefer_right(mr)));
            }
        },
    }
}

/// The code of each byte in `frequencies`, which holds at least one: the
/// leaves enter a heap in byte order, and the two lightest entries are merged
/// into a new node, the first popped on the left, until one is left; a lone
/// byte gets the empty code. `None` when a merged count passes 64 bits.
fn build_tree(frequencies: &CountTable) -> (r: Option<CodeTable>)
    requires
        exists|b: u8| #[trigger] count_table(*frequencies).contains_key(b),
    ensures
        match r {
            Some(c) => table_codes(freqs_of(count_table(*frequencies)), count_table(*frequencies).dom()) == Some(
                code_table(c),
            ),
            None => table_codes(freqs_of(count_table(*frequencies)), count_table(*frequencies).dom()) is None,
        },
{
    let ghost freqs = freqs_of(count_table(*frequencies));
    let ghost keys = count_table(*frequencies).dom();
    let mut arena: Vec<Node> = Vec::new();
    let mut heap: Vec<Entry> = Vec::new();
    let mut i: usize = 0;
    while i < 256
        invariant
            i <= 256,
            freqs == freqs_of(count_table(*frequencies)),
            keys == count_table(*frequencies).dom(),
            arena@ == leaf_arena(freqs, keys, i as nat),
            heap@ == leaf_heap(freqs, keys, i as nat),
            arena.len() <= i,
        decreases 256 - i,
    {
        proof {
            lemma_leaf_start(freqs, keys, i as nat);
        }
        match count_table_get(frequencies, i as u8) {
            Some(f) => {
                assert(f == freqs[i as int]);
                let id = arena.len();
                arena.push(Node::Leaf { symbol: i as u8, freq: f });
                heap_push(&mut heap, (f, id));
            },
            None => {},
        }
        i = i + 1;
    }
    let ghost k0 = choose|b: u8| #[trigger] count_table(*frequencies).contains_key(b);
    proof {
        lemma_leaf_start(freqs, keys, 256);
        lemma_table_tree(freqs, keys, k0);
        let a = leaf_arena(freqs, keys, 256);
        let j = choose|j: int| 0 <= j < a.len() && leaf_symbol(#[trigger] a[j]) == k0;
    }
    while heap.len() > 1
        invariant
            freqs == freqs_of(count_table(*frequencies)),
            keys == count_table(*frequencies).dom(),
            merge_all(heap@, arena@) == table_tree(freqs, keys),
            arena.len() + heap.len() <= 512,
            1 <= heap.len() <= 256,
        decreases heap.len(),
    {
        let ghost h = heap@;
        proof {
            lemma_pop(h);
            lemma_pop(pop(h).1);
        }
        let a = heap_pop(&mut heap).unwrap();
        let b = heap_pop(&mut heap).unwrap();
        match a.0.checked_add(b.0) {
            None => {
                assert(a.0 + b.0 > u64::MAX);
                assert(merge_all(h, arena@) is None);
                return None;
            },
            Some(sum) => {
                let id = arena.len();
                let ghost h2 = heap@;
                arena.push(Node::Internal { freq: sum, left: a.1, right: b.1 });
                heap_push(&mut heap, (sum, id));
                proof {
                    lemma_push(h2, (sum, id));
                }
            },
        }
    }
    let root = heap[0].1;
    assert(table_tree(freqs, keys) == Some((arena@, root)));
    let mut codes = new_code_table();
    build_codes(&arena, root, Vec::new(), &mut codes);
    proof {
        assert(code_table(codes) =~= tree_codes(arena@, root as nat, Seq::<bool>::empty()));
    }
    Some(codes)
}

/// How many times `b` occurs in `s`.
pub open spec fn byte_count(s: Seq<u8>, b: u8) -> nat
    decreases s.len(),
{
    if s.len() == 0 {
        0
    } else {
        byte_count(s.drop_last(), b) + if s.last() == b { 1nat } else { 0nat }
    }
}

/// The count of each byte in `s`, in byte order.
pub open spec fn byte_counts(s: Seq<u8>) -> Seq<u64> {
    Seq::new(256, |i: int| byte_count(s, i as u8) as u64)
}

proof fn lemma_byte_count_le(s: Seq<u8>, b: u8)
    ensures
        byte_count(s, b) <= s.len(),
    decreases s.len(),
{
    if s.len() > 0 {
        lemma_byte_count_le(s.drop_last(), b);
    }
}

/// Raising the count of one byte by one raises the sum by one.
proof fn lemma_weight_bump(f: Seq<u64>, g: Seq<u64>, x: u8, n: nat)
    requires
        n <= 256,
        f.len() == 256,
        g.len() == 256,
        forall|i: int| 0 <= i < 256 ==> #[trigger] g[i] as nat == f[i] as nat + if i == x as int { 1nat } else { 0nat },
    ensures
        weight(g, Set::full(), n) == weight(f, Set::full(), n) + if (x as nat) < n { 1nat } else { 0nat },
    decreases n,
{
    if n > 0 {
        lemma_weight_bump(f, g, x, (n - 1) as nat);
        assert(g[n - 1] as nat == f[n - 1] as nat + if n - 1 == x as int { 1nat } else { 0nat });
    }
}

/// The counts of the bytes of `s` sum to its length.
proof fn lemma_total_count(s: Seq<u8>)
    requires
        s.len() <= u64::MAX,
    ensures
        total_count(byte_counts(s)) == s.len(),
    decreases s.len(),
{
    if s.len() == 0 {
        assert forall|n: nat| n <= 256 implies weight(byte_counts(s), Set::full(), n) == 0 by {
            lemma_weight_zero(byte_counts(s), n);
        }
    } else {
        let t = s.drop_last();
        lemma_total_count(t);
        assert forall|i: int| 0 <= i < 256 implies #[trigger] byte_counts(s)[i] as nat == byte_counts(t)[i] as nat
            + if i == s.last() as int { 1nat } else { 0nat } by {
            lemma_byte_count_le(s, i as u8);
            lemma_byte_count_le(t, i as u8);
        }
        lemma_weight_bump(byte_counts(t), byte_counts(s), s.last(), 256);
    }
}

proof fn lemma_weight_zero(f: Seq<u64>, n: nat)
    requires
        n <= 256,
        f.len() == 256,
        forall|i: int| 0 <= i < 256 ==> #[trigger] f[i] == 0,
    ensures
        weight(f, Set::full(), n) == 0,
    decreases n,
{
    if n > 0 {
        lemma_weight_zero(f, (n - 1) as nat);
    }
}

/// The table of the count of each byte of `input`.
fn count_bytes(input: &[u8]) -> (r: CountTable)
    ensures
        forall|b: u8| #[trigger] count_table(r).contains_key(b),
        freqs_of(count_table(r)) == byte_counts(input@),
{
    let mut frequencies = new_count_table();
    let mut i: u32 = 0;
    while i < 256
        invariant
            i <= 256,
            forall|b: u8| #[trigger] count_table(frequencies).contains_key(b) <==> (b as u32) < i,
            forall|b: u8| (b as u32) < i ==> #[trigger] count_table(frequencies)[b] == 0,
        decreases 256 - i,
    {
        count_table_insert(&mut frequencies, i as u8, 0);
        i = i + 1;
    }
    let mut j: usize = 0;
    while j < input.len()
        invariant
            j <= input.len(),
            forall|b: u8| #[trigger] count_table(frequencies).contains_key(b),
            forall|b: u8| #[trigger] count_table(frequencies)[b] == byte_count(input@.take(j as int), b),
        decreases input.len() - j,
    {
        let b = input[j];
        let f = count_table_get(&frequencies, b).unwrap();
        proof {
            lemma_byte_count_le(input@.take(j as int), b);
            assert(input@.take(j + 1).drop_last() =~= input@.take(j as int));
        }
        count_table_insert(&mut frequencies, b, f + 1);
        j = j + 1;
    }
    proof {
        assert(input@.take(input.len() as int) =~= input@);
        assert forall|i: int| 0 <= i < 256 implies #[trigger] freqs_of(count_table(frequencies))[i] == byte_counts(input@)[i] by {
            lemma_byte_count_le(input@, i as u8);
        }
        assert(freqs_of(count_table(frequencies)) =~= byte_counts(input@));
    }
    frequencies
}

/// The header bits that the counts of bytes `0..k` take in chunks of `c`
/// bits, each chunk led by its continuation bit; a count of 0 is sized as
/// a count of 1.
pub open spec fn header_cost(freqs: Seq<u64>, c: nat, k: nat) -> nat
    decreases k,
{
    if k == 0 {
        0
    } else {
        header_cost(freqs, c, (k - 1) as nat) + (c + 1) * chunks_for(
            bit_length(if freqs[k - 1] == 0 { 1u64 } else { freqs[k - 1] }),
            c,
        )
    }
}

/// `c` is the chunk width of the header: of the widths 4 to 63, the first
/// that makes the header of the 256 counts shortest.
pub open spec fn is_best_chunk(freqs: Seq<u64>, c: nat) -> bool {
    &&& 4 <= c <= 63
    &&& forall|d: nat| 4 <= d <= 63 ==> header_cost(freqs, c, 256) <= #[trigger] header_cost(freqs, d, 256)
    &&& forall|d: nat| 4 <= d < c ==> header_cost(freqs, c, 256) < #[trigger] header_cost(freqs, d, 256)
}

/// The chunk width of the header for the counts `freqs`.
pub open spec fn best_chunk(freqs: Seq<u64>) -> nat {
    choose|c: nat| is_best_chunk(freqs, c)
}

/// At most one width is the best.
proof fn lemma_best_chunk_unique(freqs: Seq<u64>, c: nat, d: nat)
    requires
        is_best_chunk(freqs, c),
        is_best_chunk(freqs, d),
    ensures
        c == d,
{
    if c < d {
        assert(header_cost(freqs, d, 256) < header_cost(freqs, c, 256));
    } else if d < c {
        assert(header_cost(freqs, c, 256) < header_cost(freqs, d, 256));
    }
}

/// The header bits that the 256 counts take in chunks of `c` bits.
fn header_cost_exec(frequencies: &CountTable, c: u32) -> (r: u32)
    requires
        forall|b: u8| #[trigger] count_table(*frequencies).contains_key(b),
        4 <= c <= 63,
    ensures
        r == header_cost(freqs_of(count_table(*frequencies)), c as nat, 256),
{
    let ghost freqs = freqs_of(count_table(*frequencies));
    let mut bits_written: u32 = 0;
    let mut i: u32 = 0;
    while i < 256
        invariant
            i <= 256,
            4 <= c <= 63,
            freqs == freqs_of(count_table(*frequencies)),
            forall|b: u8| #[trigger] count_table(*frequencies).contains_key(b),
            bits_written == header_cost(freqs, c as nat, i as nat),
            bits_written <= 4096 * i,
        decreases 256 - i,
    {
        let f = count_table_get(frequencies, i as u8).unwrap();
        let v: u64 = if f == 0 { 1 } else { f };
        proof {
            lemma_bit_length(v);
        }
        let mut bits_remaining: u32 = 64 - v.leading_zeros();
        let ghost start = bits_written;
        let ghost mut chunks: nat = 0;
        while bits_remaining != 0
            invariant
                4 <= c <= 63,
                bits_remaining <= 64,
                bits_written == start + (c + 1) * chunks,
                chunks + chunks_for(bits_remaining as nat, c as nat) == chunks_for(bit_length(v), c as nat),
                bits_written <= start + 64 * (64 - bits_remaining),
                start <= 4096 * i,
                i < 256,
            decreases bits_remaining,
        {
            proof {
                let n = bits_remaining as int;
                let cc = c as int;
                if n <= cc {
                    assert((n + cc - 1) / cc == 1) by (nonlinear_arith)
                        requires
                            0 < n <= cc,
                    ;
                    vstd::arithmetic::div_mod::lemma_basic_div(cc - 1, cc);
                    assert(chunks_for(n as nat, c as nat) == 1 + chunks_for(0, c as nat));
                } else {
                    vstd::arithmetic::div_mod::lemma_div_plus_one(n - 1, cc);
                    assert(chunks_for(n as nat, c as nat) == 1 + chunks_for((n - cc) as nat, c as nat));
                }
                assert((c + 1) * (chunks + 1) == (c + 1) * chunks + (c + 1)) by (nonlinear_arith);
                chunks = chunks + 1;
            }
            bits_written = bits_written + c + 1;
            bits_remaining = bits_remaining.saturating_sub(c);
        }
        proof {
            vstd::arithmetic::div_mod::lemma_basic_div(c - 1, c as int);
        }
        i = i + 1;
    }
    bits_written
}

/// The chunk width of the header: of the widths 4 to 63, the first that
/// makes the header of the counts shortest.
fn optimal_chunk_size(frequencies: &CountTable) -> (r: u32)
    requires
        forall|b: u8| #[trigger] count_table(*frequencies).contains_key(b),
    ensures
        is_best_chunk(freqs_of(count_table(*frequencies)), r as nat),
        r == best_chunk(freqs_of(count_table(*frequencies))),
{
    let ghost freqs = freqs_of(count_table(*frequencies));
    let mut best: u32 = 4;
    let mut best_cost = header_cost_exec(frequencies, 4);
    let mut c: u32 = 5;
    while c <= 63
        invariant
            5 <= c <= 64,
            4 <= best < c,
            freqs == freqs_of(count_table(*frequencies)),
            forall|b: u8| #[trigger] count_table(*frequencies).contains_key(b),
            best_cost == header_cost(freqs, best as nat, 256),
            forall|d: nat| 4 <= d < c ==> best_cost <= #[trigger] header_cost(freqs, d, 256),
            forall|d: nat| 4 <= d < best ==> best_cost < #[trigger] header_cost(freqs, d, 256),
        decreases 64 - c,
    {
        let cost = header_cost_exec(frequencies, c);
        if cost < best_cost {
            best = c;
            best_cost = cost;
        }
        c = c + 1;
    }
    proof {
        assert(is_best_chunk(freqs, best as nat));
        lemma_best_chunk_unique(freqs, best as nat, best_chunk(freqs));
    }
    best
}

/// The counts of bytes `0..k`, each written in chunks of `c` bits led by
/// continuation bits.
pub open spec fn header_bits(freqs: Seq<u64>, c: u64, k: nat) -> Seq<bool>
    decreases k,
{
    if k == 0 {
        Seq::empty()
    } else {
        header_bits(freqs, c, (k - 1) as nat) + varint_bits(freqs[k - 1], c)
    }
}

/// The codes of the bytes of `s`, one after the other.
pub open spec fn code_bits(codes: Map<u8, Seq<bool>>, s: Seq<u8>) -> Seq<bool>
    decreases s.len(),
{
    if s.len() == 0 {
        Seq::empty()
    } else {
        codes[s[0]] + code_bits(codes, s.drop_first())
    }
}

/// The bit stream of the Huffman encoding of `input`: nothing for no input;
/// else the chunk width of the header in six bits, the 256 byte counts in
/// chunks of that width, and then the code of each byte of the input.
pub open spec fn huffman_bits(input: Seq<u8>) -> Seq<bool> {
    let freqs = byte_counts(input);
    let c = best_chunk(freqs);
    if input.len() == 0 {
        Seq::empty()
    } else {
        match huffman_codes(freqs) {
            Some(codes) => low_bits(c as u64, 6) + header_bits(freqs, c as u64, 256) + code_bits(codes, input),
            None => Seq::empty(),
        }
    }
}

proof fn lemma_code_bits_push(codes: Map<u8, Seq<bool>>, s: Seq<u8>, x: u8)
    ensures
        code_bits(codes, s.push(x)) == code_bits(codes, s) + codes[x],
    decreases s.len(),
{
    if s.len() == 0 {
        assert(s.push(x).drop_first() =~= Seq::<u8>::empty());
        assert(code_bits(codes, Seq::<u8>::empty()) =~= Seq::<bool>::empty());
        assert(code_bits(codes, s.push(x)) =~= codes[x]);
    } else {
        lemma_code_bits_push(codes, s.drop_first(), x);
        assert(s.push(x).drop_first() =~= s.drop_first().push(x));
        assert(code_bits(codes, s.push(x)) =~= code_bits(codes, s) + codes[x]);
    }
}

/// Encodes `input` with Huffman coding and returns the bytes.
///
/// The bytes hold the bits of `huffman_bits(input)` in order, least
/// significant bit of each byte first, and zero bits to fill the last byte;
/// no input gives no bytes.
pub fn encode(input: &[u8]) -> (r: Vec<u8>)
    requires
        huffman_bits(input@).len() <= u64::MAX,
    ensures
        bytes_bits(r@) == huffman_bits(input@) + zeros(byte_padding(huffman_bits(input@).len())),
{
    let ghost total = huffman_bits(input@);
    let frequencies = count_bytes(input);
    let ghost freqs = byte_counts(input@);
    if input.len() == 0 {
        proof {
            assert(bytes_bits(Seq::<u8>::empty()) =~= total + zeros(0));
        }
        return Vec::new();
    }
    proof {
        lemma_total_count(input@);
        lemma_huffman_codes(freqs);
        assert(count_table(frequencies).contains_key(0u8));
        assert(count_table(frequencies).dom() =~= Set::<u8>::full());
    }
    let codes = build_tree(&frequencies).unwrap();
    let ghost cm = code_table(codes);
    let chunk = optimal_chunk_size(&frequencies);
    let ghost head = low_bits(chunk as u64, 6);
    let mut writer = BitWriter::new(None);
    writer.write_bits(6, chunk as u64);
    proof {
        assert(total == head + header_bits(freqs, chunk as u64, 256) + code_bits(cm, input@));
        assert(writer.stream() =~= head);
    }
    let mut i: u32 = 0;
    while i < 256
        invariant
            i <= 256,
            4 <= chunk <= 63,
            forall|b: u8| #[trigger] count_table(frequencies).contains_key(b),
            freqs_of(count_table(frequencies)) == freqs,
            total == head + header_bits(freqs, chunk as u64, 256) + code_bits(cm, input@),
            total.len() <= u64::MAX,
            writer.wf(),
            writer.written() == writer.stream().len(),
            writer.stream() == head + header_bits(freqs, chunk as u64, i as nat),
        decreases 256 - i,
    {
        let f = count_table_get(&frequencies, i as u8).unwrap();
        proof {
            assert(f == freqs[i as int]);
            lemma_header_bits_prefix(freqs, chunk as u64, (i + 1) as nat, 256);
            assert((head + header_bits(freqs, chunk as u64, (i + 1) as nat)).len() <= total.len());
        }
        writer.write_bits_with_continuation_bit(chunk, f);
        proof {
            assert(writer.stream() =~= head + header_bits(freqs, chunk as u64, (i + 1) as nat));
        }
        i = i + 1;
    }
    let ghost header = writer.stream();
    let mut j: usize = 0;
    while j < input.len()
        invariant
            j <= input.len(),
            total == header + code_bits(cm, input@),
            total.len() <= u64::MAX,
            forall|b: u8| #[trigger] cm.contains_key(b),
            cm == code_table(codes),
            writer.wf(),
            writer.written() == writer.stream().len(),
            writer.stream() == header + code_bits(cm, input@.take(j as int)),
        decreases input.len() - j,
    {
        let code = code_table_get(&codes, input[j]).unwrap();
        let ghost before = writer.stream();
        proof {
            lemma_code_bits_push(cm, input@.take(j as int), input[j as int]);
            assert(input@.take(j + 1) =~= input@.take(j as int).push(input[j as int]));
            lemma_code_bits_prefix(cm, input@, (j + 1) as nat);
        }
        let mut k: usize = 0;
        while k < code.len()
            invariant
                k <= code.len(),
                total.len() <= u64::MAX,
                (before + code@).len() <= total.len(),
                writer.wf(),
                writer.written() == writer.stream().len(),
                writer.stream() == before + code@.take(k as int),
            decreases code.len() - k,
        {
            writer.write(&code[k]);
            proof {
                assert(writer.stream() =~= before + code@.take(k + 1));
            }
            k = k + 1;
        }
        proof {
            assert(code@.take(code.len() as int) =~= code@);
        }
        j = j + 1;
    }
    proof {
        assert(input@.take(input.len() as int) =~= input@);
    }
    writer.flush();
    writer.into_bytes()
}

proof fn lemma_header_bits_prefix(freqs: Seq<u64>, c: u64, k: nat, n: nat)
    requires
        k <= n,
    ensures
        header_bits(freqs, c, k).len() <= header_bits(freqs, c, n).len(),
    decreases n,
{
    if k < n {
        lemma_header_bits_prefix(freqs, c, k, (n - 1) as nat);
    }
}

/// The codes of a prefix of `s` are no longer than those of `s`.
proof fn lemma_code_bits_prefix(codes: Map<u8, Seq<bool>>, s: Seq<u8>, k: nat)
    requires
        k <= s.len(),
    ensures
        code_bits(codes, s.take(k as int)).len() <= code_bits(codes, s).len(),
    decreases s.len() - k,
{
    if k < s.len() {
        lemma_code_bits_prefix(codes, s, k + 1);
        lemma_code_bits_push(codes, s.take(k as int), s[k as int]);
        assert(s.take(k + 1 as int) =~= s.take(k as int).push(s[k as int]));
    } else {
        assert(s.take(k as int) =~= s);
    }
}

/// Reading, at `pos`, the counts of the bytes after the `counts.len()`
/// already read, each in chunks of `c` bits led by continuation bits; gives
/// the 256 counts and the position after them.
pub open spec fn header_parse(s: Seq<bool>, pos: nat, c: nat, counts: Seq<u64>) -> Result<(Seq<u64>, nat), DecodeError>
    decreases 256 - counts.len(),
{
    if counts.len() >= 256 {
        Ok((counts, pos))
    } else {
        match varint_parse(s, pos, c, 0, 0) {
            Parsed::Value(v, p) => header_parse(s, p, c, counts.push(v)),
            Parsed::End => Err(DecodeError::EndOfInput),
            Parsed::Overflow => Err(DecodeError::CorruptInput),
        }
    }
}

/// The table from codes back to the bytes they stand for.
pub open spec fn code_inverse(codes: Map<u8, Seq<bool>>) -> Map<Seq<bool>, u8> {
    Map::new(
        |p: Seq<bool>| exists|b: u8| codes.contains_key(b) && codes[b] == p,
        |p: Seq<bool>| choose|b: u8| codes.contains_key(b) && codes[b] == p,
    )
}

/// Decoding bytes from `pos` on: each bit read goes onto `prefix`, and where
/// the prefix is in `table` its byte goes out and the prefix starts over;
/// it stops where the stream ends or once `remaining` bytes went out.
pub open spec fn decode_symbols(
    s: Seq<bool>,
    pos: nat,
    table: Map<Seq<bool>, u8>,
    prefix: Seq<bool>,
    remaining: nat,
    out: Seq<u8>,
) -> Seq<u8>
    decreases s.len() - pos,
{
    if pos + 1 > s.len() || remaining == 0 {
        out
    } else {
        let p = prefix.push(s[pos as int]);
        if table.contains_key(p) {
            decode_symbols(s, pos + 1, table, Seq::empty(), (remaining - 1) as nat, out.push(table[p]))
        } else {
            decode_symbols(s, pos + 1, table, p, remaining, out)
        }
    }
}

/// What decoding the bytes `input` gives: nothing for no bytes, which is the
/// encoding of no input; else the chunk width from the first six bits, the
/// 256 counts, the codes they make, and then as many bytes as the counts sum
/// to, as far as the stream goes.
pub open spec fn huffman_decode(input: Seq<u8>) -> Result<Seq<u8>, DecodeError> {
    let s = padded_bits(input);
    if input.len() == 0 {
        Ok(Seq::empty())
    } else {
        match bits_at(s, 0, 6) {
            Err(_) => Err(DecodeError::EndOfInput),
            Ok(c) => match header_parse(s, 6, c as nat, Seq::empty()) {
                Err(e) => Err(e),
                Ok((freqs, p)) => match huffman_codes(freqs) {
                    None => Err(DecodeError::CorruptInput),
                    Some(codes) => Ok(
                        decode_symbols(s, p, code_inverse(codes), Seq::empty(), total_count(freqs), Seq::empty()),
                    ),
                },
            },
        }
    }
}

/// No two bytes share a code.
proof fn lemma_codes_distinct(codes: Map<u8, Seq<bool>>, x: u8, y: u8)
    requires
        prefix_free(codes),
        codes.contains_key(x),
        codes.contains_key(y),
        codes[x] == codes[y],
    ensures
        x == y,
{
    if x != y {
        assert(codes[x].subrange(0, codes[y].len() as int) =~= codes[y]);
        assert(is_prefix(codes[y], codes[x]));
    }
}

proof fn lemma_weight_le(f: Seq<u64>, k: nat, n: nat)
    requires
        k <= n,
    ensures
        weight(f, Set::full(), k) <= weight(f, Set::full(), n),
    decreases n,
{
    if k < n {
        lemma_weight_le(f, k, (n - 1) as nat);
    }
}

/// Decodes a Huffman encoding; no bytes decode to no bytes.
///
/// Fails with `EndOfInput` where the input ends inside the header, and with
/// `CorruptInput` where a count runs past 64 bits or the counts sum past 64
/// bits.
pub fn decode(input: Vec<u8>) -> (r: Result<Vec<u8>, DecodeError>)
    requires
        8 * input@.len() + 64 <= u64::MAX,
    ensures
        match r {
            Ok(v) => huffman_decode(input@) == Ok::<Seq<u8>, DecodeError>(v@),
            Err(e) => huffman_decode(input@) == Err::<Seq<u8>, DecodeError>(e),
        },
{
    let ghost inp = input@;
    if input.len() == 0 {
        return Ok(Vec::new());
    }
    let mut reader = BitReader::new(input, None);
    let ghost s = reader.stream();
    let chunk = match reader.read_bits(6) {
        Ok(c) => c,
        Err(_) => {
            return Err(DecodeError::EndOfInput);
        },
    };
    proof {
        lemma_value_of_short(s.subrange(0, 6));
        assert((1u64 << 6u64) == 64) by (bit_vector);
    }
    let chunk = chunk as u32;
    let mut frequencies = new_count_table();
    let ghost mut counts: Seq<u64> = Seq::empty();
    let mut i: u32 = 0;
    while i < 256
        invariant
            i <= 256,
            chunk < 64,
            bits_at(s, 0, 6) == Ok::<u64, ReadError>(chunk as u64),
            s == padded_bits(inp),
            inp == input@,
            inp.len() > 0,
            counts.len() == i,
            reader.wf(),
            reader.input() == inp,
            s == reader.stream(),
            header_parse(s, 6, chunk as nat, Seq::empty()) == header_parse(s, reader.pos(), chunk as nat, counts),
            forall|b: u8| #[trigger] count_table(frequencies).contains_key(b) <==> (b as u32) < i,
            forall|b: u8| (b as u32) < i ==> #[trigger] count_table(frequencies)[b] == counts[b as int],
        decreases 256 - i,
    {
        if reader.continuation_read_overflows(chunk) {
            return Err(DecodeError::CorruptInput);
        }
        let v = match reader.read_bits_with_continuation_bit(chunk) {
            Ok(v) => v,
            Err(_) => {
                return Err(DecodeError::EndOfInput);
            },
        };
        count_table_insert(&mut frequencies, i as u8, v);
        proof {
            counts = counts.push(v);
        }
        i = i + 1;
    }
    proof {
        assert(freqs_of(count_table(frequencies)) =~= counts);
        lemma_huffman_codes(counts);
        assert(count_table(frequencies).contains_key(0u8));
        assert(count_table(frequencies).dom() =~= Set::<u8>::full());
    }
    let ghost p0 = reader.pos();
    let codes = match build_tree(&frequencies) {
        Some(c) => c,
        None => {
            return Err(DecodeError::CorruptInput);
        },
    };
    let ghost cm = code_table(codes);
    let mut prefix_to_symbol = new_symbol_table();
    let mut b: u32 = 0;
    while b < 256
        invariant
            b <= 256,
            cm == code_table(codes),
            forall|x: u8| #[trigger] cm.contains_key(x),
            prefix_free(cm),
            forall|p: Seq<bool>| #[trigger] symbol_table(prefix_to_symbol).contains_key(p)
                <==> exists|x: u8| (x as u32) < b && cm[x] == p,
            forall|x: u8| (x as u32) < b ==> #[trigger] symbol_table(prefix_to_symbol)[cm[x]] == x,
        decreases 256 - b,
    {
        let code = code_table_get(&codes, b as u8).unwrap();
        let key = code.clone();
        proof {
            assert(key@ =~= code@);
        }
        symbol_table_insert(&mut prefix_to_symbol, key, b as u8);
        proof {
            let t = symbol_table(prefix_to_symbol);
            assert forall|p: Seq<bool>| #[trigger] t.contains_key(p) <==> exists|x: u8| (x as u32) < b + 1 && cm[x] == p by {
                if p == cm[b as u8] {
                    assert((b as u8) as u32 == b);
                }
                if exists|x: u8| (x as u32) < b + 1 && cm[x] == p {
                    let x = choose|x: u8| (x as u32) < b + 1 && cm[x] == p;
                    if (x as u32) < b {
                        assert(exists|y: u8| (y as u32) < b && cm[y] == p);
                    }
                }
            }
            assert forall|x: u8| (x as u32) < b + 1 implies #[trigger] t[cm[x]] == x by {
                if cm[x] == cm[b as u8] {
                    lemma_codes_distinct(cm, x, b as u8);
                }
            }
        }
        b = b + 1;
    }
    proof {
        let t = symbol_table(prefix_to_symbol);
        assert forall|p: Seq<bool>| #[trigger] t.contains_key(p) == code_inverse(cm).contains_key(p) by {
            if code_inverse(cm).contains_key(p) {
                let x = choose|x: u8| cm.contains_key(x) && cm[x] == p;
                assert((x as u32) < 256);
            }
        }
        assert forall|p: Seq<bool>| #[trigger] t.contains_key(p) implies t[p] == code_inverse(cm)[p] by {
            let x = choose|x: u8| (x as u32) < 256 && cm[x] == p;
            let y = choose|y: u8| cm.contains_key(y) && cm[y] == p;
            lemma_codes_distinct(cm, x, y);
        }
        assert(t =~= code_inverse(cm));
    }
    let mut total: u64 = 0;
    let mut k: u32 = 0;
    while k < 256
        invariant
            k <= 256,
            counts.len() == 256,
            freqs_of(count_table(frequencies)) == counts,
            forall|x: u8| #[trigger] count_table(frequencies).contains_key(x),
            total_count(counts) <= u64::MAX,
            total == weight(counts, Set::full(), k as nat),
        decreases 256 - k,
    {
        let f = count_table_get(&frequencies, k as u8).unwrap();
        proof {
            assert(f == counts[k as int]);
            lemma_weight_le(counts, (k + 1) as nat, 256);
        }
        total = total + f;
        k = k + 1;
    }
    let ghost table = symbol_table(prefix_to_symbol);
    let ghost result = decode_symbols(s, p0, table, Seq::empty(), total as nat, Seq::empty());
    let mut prefix: Vec<bool> = Vec::new();
    let mut out: Vec<u8> = Vec::new();
    let mut symbols_written: u64 = 0;
    proof {
        reader.lemma_pos_in_stream();
    }
    loop
        invariant
            reader.wf(),
            s == reader.stream(),
            reader.pos() <= s.len(),
            table == symbol_table(prefix_to_symbol),
            symbols_written <= total,
            decode_symbols(s, reader.pos(), table, prefix@, (total - symbols_written) as nat, out@) == result,
        ensures
            out@ == result,
        decreases s.len() - reader.pos(),
    {
        let ghost pos = reader.pos();
        let bit = match reader.read::<bool>() {
            Ok(bit) => bit,
            Err(_) => {
                break;
            },
        };
        if !(symbols_written < total) {
            break;
        }
        proof {
            assert(s.subrange(pos as int, pos + 1 as int) =~= seq![s[pos as int]]);
            lemma_value_of_single(s[pos as int]);
        }
        prefix.push(bit);
        match symbol_table_get(&prefix_to_symbol, &prefix) {
            Some(symbol) => {
                out.push(symbol);
                prefix.clear();
                symbols_written = symbols_written + 1;
            },
            None => {},
        }
    }
    Ok(out)
}

proof fn lemma_best_chunk_scan(freqs: Seq<u64>, c: nat, best: nat)
    requires
        5 <= c <= 64,
        4 <= best < c,
        forall|d: nat| 4 <= d < c ==> header_cost(freqs, best, 256) <= #[trigger] header_cost(freqs, d, 256),
        forall|d: nat| 4 <= d < best ==> header_cost(freqs, best, 256) < #[trigger] header_cost(freqs, d, 256),
    ensures
        is_best_chunk(freqs, best_chunk(freqs)),
    decreases 64 - c,
{
    if c == 64 {
        assert(is_best_chunk(freqs, best));
    } else if header_cost(freqs, c, 256) < header_cost(freqs, best, 256) {
        lemma_best_chunk_scan(freqs, c + 1, c);
    } else {
        lemma_best_chunk_scan(freqs, c + 1, best);
    }
}

/// Every count table has a best chunk width.
proof fn lemma_best_chunk(freqs: Seq<u64>)
    ensures
        is_best_chunk(freqs, best_chunk(freqs)),
{
    lemma_best_chunk_scan(freqs, 5, 4);
}

proof fn lemma_header_bits_take(freqs: Seq<u64>, c: u64, k: nat, n: nat)
    requires
        k <= n,
    ensures
        header_bits(freqs, c, k).len() <= header_bits(freqs, c, n).len(),
        header_bits(freqs, c, n).subrange(0, header_bits(freqs, c, k).len() as int) == header_bits(freqs, c, k),
    decreases n,
{
    if k < n {
        lemma_header_bits_take(freqs, c, k, (n - 1) as nat);
        let hk = header_bits(freqs, c, k);
        let hn1 = header_bits(freqs, c, (n - 1) as nat);
        assert(header_bits(freqs, c, n).subrange(0, hk.len() as int) =~= hn1.subrange(0, hk.len() as int));
    } else {
        assert(header_bits(freqs, c, n).subrange(0, header_bits(freqs, c, k).len() as int) =~= header_bits(freqs, c, n));
    }
}

/// The header written for `freqs` reads back as `freqs`.
proof fn lemma_header_roundtrip(s: Seq<bool>, freqs: Seq<u64>, c: u64, k: nat)
    requires
        freqs.len() == 256,
        k <= 256,
        0 < c < 64,
        6 + header_bits(freqs, c, 256).len() <= s.len(),
        s.subrange(6, (6 + header_bits(freqs, c, 256).len()) as int) == header_bits(freqs, c, 256),
    ensures
        header_parse(s, 6 + header_bits(freqs, c, k).len(), c as nat, freqs.take(k as int)) == Ok::<(Seq<u64>, nat), DecodeError>(
            (freqs, 6 + header_bits(freqs, c, 256).len()),
        ),
    decreases 256 - k,
{
    if k == 256 {
        assert(freqs.take(256) =~= freqs);
    } else {
        let hk = header_bits(freqs, c, k);
        let hk1 = header_bits(freqs, c, k + 1);
        let h = header_bits(freqs, c, 256);
        let vb = varint_bits(freqs[k as int], c);
        let pos = 6 + hk.len();
        lemma_header_bits_take(freqs, c, k + 1, 256);
        assert(hk1 == hk + vb);
        assert(s.subrange(pos as int, (pos + vb.len()) as int) =~= vb) by {
            assert(s.subrange(pos as int, (pos + vb.len()) as int) =~= h.subrange(hk.len() as int, hk1.len() as int));
            assert(h.subrange(hk.len() as int, hk1.len() as int) =~= hk1.subrange(hk.len() as int, hk1.len() as int));
        }
        lemma_varint_roundtrip(s, pos, freqs[k as int], c as nat);
        assert(freqs.take(k as int).push(freqs[k as int]) =~= freqs.take(k + 1 as int));
        lemma_header_roundtrip(s, freqs, c, k + 1);
    }
}

/// Reading the bits of one byte's code, from any point inside it, gives that
/// byte once the code is complete.
proof fn lemma_decode_one(
    s: Seq<bool>,
    start: nat,
    i: nat,
    codes: Map<u8, Seq<bool>>,
    x: u8,
    n: nat,
    out: Seq<u8>,
)
    requires
        forall|b: u8| #[trigger] codes.contains_key(b),
        prefix_free(codes),
        i < codes[x].len(),
        n > 0,
        start + codes[x].len() <= s.len(),
        s.subrange(start as int, (start + codes[x].len()) as int) == codes[x],
    ensures
        decode_symbols(s, start + i, code_inverse(codes), codes[x].take(i as int), n, out) == decode_symbols(
            s,
            start + codes[x].len(),
            code_inverse(codes),
            Seq::empty(),
            (n - 1) as nat,
            out.push(x),
        ),
    decreases codes[x].len() - i,
{
    let code = codes[x];
    let inv = code_inverse(codes);
    let pos = start + i;
    assert(s[pos as int] == code[i as int]) by {
        assert(s.subrange(start as int, (start + code.len()) as int)[i as int] == s[pos as int]);
    }
    let p = code.take(i as int).push(s[pos as int]);
    assert(p =~= code.take(i + 1 as int));
    if i + 1 < code.len() {
        if inv.contains_key(p) {
            let b = choose|b: u8| codes.contains_key(b) && codes[b] == p;
            assert(codes[x].subrange(0, codes[b].len() as int) =~= codes[b]);
            assert(is_prefix(codes[b], codes[x]));
            assert(b != x);
        }
        lemma_decode_one(s, start, i + 1, codes, x, n, out);
    } else {
        assert(p =~= code);
        assert(inv.contains_key(p));
        let b = choose|b: u8| codes.contains_key(b) && codes[b] == p;
        lemma_codes_distinct(codes, b, x);
    }
}

/// Reading the codes of the bytes `rest` gives those bytes.
proof fn lemma_decode_codes(s: Seq<bool>, pos: nat, codes: Map<u8, Seq<bool>>, rest: Seq<u8>, out: Seq<u8>)
    requires
        forall|b: u8| #[trigger] codes.contains_key(b),
        forall|b: u8| #[trigger] codes[b].len() > 0,
        prefix_free(codes),
        pos + code_bits(codes, rest).len() <= s.len(),
        s.subrange(pos as int, (pos + code_bits(codes, rest).len()) as int) == code_bits(codes, rest),
    ensures
        decode_symbols(s, pos, code_inverse(codes), Seq::empty(), rest.len(), out) == out + rest,
    decreases rest.len(),
{
    if rest.len() == 0 {
        assert(out + rest =~= out);
    } else {
        let x = rest[0];
        let code = codes[x];
        let tail = rest.drop_first();
        let cb = code_bits(codes, rest);
        assert(cb == code + code_bits(codes, tail));
        assert(s.subrange(pos as int, (pos + code.len()) as int) =~= code) by {
            assert(s.subrange(pos as int, (pos + code.len()) as int) =~= cb.subrange(0, code.len() as int));
        }
        assert(code.take(0) =~= Seq::<bool>::empty());
        lemma_decode_one(s, pos, 0, codes, x, rest.len(), out);
        assert(s.subrange((pos + code.len()) as int, (pos + code.len() + code_bits(codes, tail).len()) as int) =~= code_bits(codes, tail)) by {
            assert(s.subrange((pos + code.len()) as int, (pos + code.len() + code_bits(codes, tail).len()) as int) =~= cb.subrange(code.len() as int, cb.len() as int));
        }
        lemma_decode_codes(s, pos + code.len(), codes, tail, out.push(x));
        assert(out.push(x) + tail =~= out + rest);
    }
}

/// Decoding what `encode` gives back gives back the input.
pub proof fn lemma_huffman_roundtrip(input: Seq<u8>, encoded: Seq<u8>)
    requires
        input.len() <= u64::MAX,
        bytes_bits(encoded) == huffman_bits(input) + zeros(byte_padding(huffman_bits(input).len())),
    ensures
        huffman_decode(encoded) == Ok::<Seq<u8>, DecodeError>(input),
{
    if input.len() == 0 {
        assert(bytes_bits(encoded).len() == 0);
        assert(input =~= Seq::<u8>::empty());
    } else {
        let freqs = byte_counts(input);
        lemma_total_count(input);
        lemma_huffman_codes(freqs);
        lemma_best_chunk(freqs);
        let codes = huffman_codes(freqs).unwrap();
        let c = best_chunk(freqs);
        let head = low_bits(c as u64, 6);
        let hb = header_bits(freqs, c as u64, 256);
        let cb = code_bits(codes, input);
        let bits = huffman_bits(input);
        assert(bits == head + hb + cb);
        let s = padded_bits(encoded);
        let extra = (64 * num_words(encoded.len()) - 8 * encoded.len()) as nat;
        assert(s =~= bits + zeros(byte_padding(bits.len()) + extra));
        assert(s.subrange(0, 6) =~= head);
        lemma_value_of_low_bits(c as u64, 6);
        let cc = c as u64;
        assert(cc < 64 ==> cc & ((1u64 << 6u64) - 1) as u64 == cc) by (bit_vector);
        assert(bits_at(s, 0, 6) == Ok::<u64, ReadError>(c as u64));
        assert(s.subrange(6, (6 + hb.len()) as int) =~= hb);
        lemma_header_roundtrip(s, freqs, c as u64, 0);
        assert(hb.len() == header_bits(freqs, c as u64, 256).len());
        assert(freqs.take(0) =~= Seq::<u64>::empty());
        assert(header_bits(freqs, c as u64, 0) =~= Seq::<bool>::empty());
        let p = 6 + hb.len();
        assert(s.subrange(p as int, (p + cb.len()) as int) =~= cb);
        lemma_decode_codes(s, p, codes, input, Seq::empty());
        assert(Seq::<u8>::empty() + input =~= input);
    }
}

/// The sum, over the bytes of `t` below `n`, of two to the power of 512
/// less the length of the byte's code: Kraft's sum scaled by two to the 512.
pub open spec fn kraft_sum(codes: Map<u8, Seq<bool>>, t: Set<u8>, n: nat) -> nat
    decreases n,
{
    if n == 0 {
        0
    } else {
        kraft_sum(codes, t, (n - 1) as nat) + if t.contains((n - 1) as u8) {
            pow2((512 - codes[(n - 1) as u8].len()) as nat)
        } else {
            0
        }
    }
}

proof fn lemma_kraft_union(codes: Map<u8, Seq<bool>>, a: Set<u8>, b: Set<u8>, n: nat)
    requires
        a.disjoint(b),
        n <= 256,
    ensures
        kraft_sum(codes, a + b, n) == kraft_sum(codes, a, n) + kraft_sum(codes, b, n),
    decreases n,
{
    if n > 0 {
        lemma_kraft_union(codes, a, b, (n - 1) as nat);
        let x = (n - 1) as u8;
        assert(!(a.contains(x) && b.contains(x)));
    }
}

proof fn lemma_kraft_same_lengths(c1: Map<u8, Seq<bool>>, c2: Map<u8, Seq<bool>>, t: Set<u8>, n: nat)
    requires
        forall|x: u8| #[trigger] t.contains(x) ==> c1[x].len() == c2[x].len(),
    ensures
        kraft_sum(c1, t, n) == kraft_sum(c2, t, n),
    decreases n,
{
    if n > 0 {
        lemma_kraft_same_lengths(c1, c2, t, (n - 1) as nat);
    }
}

proof fn lemma_kraft_single(codes: Map<u8, Seq<bool>>, x: u8, n: nat)
    requires
        n <= 256,
    ensures
        kraft_sum(codes, set![x], n) == if (x as nat) < n { pow2((512 - codes[x].len()) as nat) } else { 0 },
    decreases n,
{
    if n > 0 {
        lemma_kraft_single(codes, x, (n - 1) as nat);
        assert(set![x].contains((n - 1) as u8) == (x as nat == n - 1));
    }
}

/// A code under node `id` is longer than the prefix by at most `id`.
proof fn lemma_code_len_bound(arena: Seq<Node>, id: nat, prefix: Seq<bool>)
    requires
        wf_node(arena, id),
    ensures
        forall|x: u8| #[trigger] tree_codes(arena, id, prefix).contains_key(x) ==> tree_codes(arena, id, prefix)[x].len()
            <= prefix.len() + id,
    decreases id,
{
    let m = tree_codes(arena, id, prefix);
    if let Node::Internal { left, right, .. } = arena[id as int] {
        let ml = tree_codes(arena, left as nat, prefix.push(false));
        let mr = tree_codes(arena, right as nat, prefix.push(true));
        lemma_code_len_bound(arena, left as nat, prefix.push(false));
        lemma_code_len_bound(arena, right as nat, prefix.push(true));
        assert forall|x: u8| #[trigger] m.contains_key(x) implies m[x].len() <= prefix.len() + id by {
            if mr.contains_key(x) {
                assert(m[x] == mr[x]);
            } else {
                assert(m[x] == ml[x]);
            }
        }
    }
}

/// The codes under a node fill the whole subtree: their Kraft sum is that of
/// the prefix alone.
proof fn lemma_tree_kraft(arena: Seq<Node>, id: nat, prefix: Seq<bool>)
    requires
        wf_node(arena, id),
        prefix.len() + id <= 512,
    ensures
        kraft_sum(tree_codes(arena, id, prefix), leaves(arena, id), 256) == pow2((512 - prefix.len()) as nat),
    decreases id,
{
    let m = tree_codes(arena, id, prefix);
    match arena[id as int] {
        Node::Leaf { symbol, .. } => {
            lemma_kraft_single(m, symbol, 256);
        },
        Node::Internal { left, right, .. } => {
            let pl = prefix.push(false);
            let pr = prefix.push(true);
            let ml = tree_codes(arena, left as nat, pl);
            let mr = tree_codes(arena, right as nat, pr);
            let ll = leaves(arena, left as nat);
            let lr = leaves(arena, right as nat);
            lemma_tree_codes(arena, left as nat, pl);
            lemma_tree_codes(arena, right as nat, pr);
            lemma_tree_kraft(arena, left as nat, pl);
            lemma_tree_kraft(arena, right as nat, pr);
            lemma_kraft_union(m, ll, lr, 256);
            assert forall|x: u8| #[trigger] ll.contains(x) implies m[x].len() == ml[x].len() by {
                assert(!mr.contains_key(x));
            }
            lemma_kraft_same_lengths(m, ml, ll, 256);
            lemma_kraft_same_lengths(m, mr, lr, 256);
            lemma_pow2_unfold((512 - prefix.len()) as nat);
        },
    }
}

/// The codes of a table fill a whole binary tree: no code is longer than
/// 511 bits and Kraft's sum of two to the minus code length is exactly one
/// (here scaled by two to the 512).
pub proof fn lemma_table_kraft(freqs: Seq<u64>, keys: Set<u8>, k0: u8)
    requires
        freqs.len() == 256,
        keys.contains(k0),
        table_codes(freqs, keys) is Some,
    ensures
        forall|b: u8| #[trigger] table_codes(freqs, keys).unwrap().contains_key(b) ==> table_codes(freqs, keys).unwrap()[b].len()
            < 512,
        kraft_sum(table_codes(freqs, keys).unwrap(), keys, 256) == pow2(512),
{
    lemma_table_tree(freqs, keys, k0);
    let (arena, root) = table_tree(freqs, keys).unwrap();
    lemma_tree_codes(arena, root as nat, Seq::empty());
    lemma_code_len_bound(arena, root as nat, Seq::empty());
    lemma_tree_kraft(arena, root as nat, Seq::empty());
}

/// A count written in chunks of `c` bits, for `c` from 1 to 63, takes at
/// most 4096 bits.
proof fn lemma_count_bits_len(v: u64, c: u64)
    requires
        0 < c < 64,
    ensures
        varint_bits(v, c).len() <= 4096,
{
    lemma_varint_len(v, c);
    lemma_bit_length(v);
    let bl = bit_length(v);
    let k = if bl == 0 { 1 } else { chunks_for(bl, c as nat) };
    if bl > 0 {
        let b = bl as int;
        let cc = c as int;
        assert((b + cc - 1) / cc <= 64) by (nonlinear_arith)
            requires
                0 < b <= 64,
                0 < cc,
        ;
    }
    assert(k <= 64);
    assert((c + 1) * k <= 4096) by (nonlinear_arith)
        requires
            c < 64,
            k <= 64,
    ;
}

proof fn lemma_header_bits_len(freqs: Seq<u64>, c: u64, k: nat)
    requires
        0 < c < 64,
    ensures
        header_bits(freqs, c, k).len() <= 4096 * k,
    decreases k,
{
    if k > 0 {
        lemma_header_bits_len(freqs, c, (k - 1) as nat);
        lemma_count_bits_len(freqs[k - 1], c);
    }
}

proof fn lemma_code_bits_len(codes: Map<u8, Seq<bool>>, s: Seq<u8>)
    requires
        forall|b: u8| #[trigger] codes.contains_key(b) ==> codes[b].len() < 512,
        forall|b: u8| #[trigger] codes.contains_key(b),
    ensures
        code_bits(codes, s).len() <= 512 * s.len(),
    decreases s.len(),
{
    if s.len() > 0 {
        lemma_code_bits_len(codes, s.drop_first());
        assert(codes.contains_key(s[0]));
    }
}

/// The encoding of `input` takes at most 512 bits for each byte, and a
/// header of at most 2^20 bits more: so every input of fewer than 2^54 bytes
/// meets the bound of `encode`.
pub proof fn lemma_huffman_bits_len(input: Seq<u8>)
    requires
        input.len() <= u64::MAX,
    ensures
        huffman_bits(input).len() <= 6 + 1048576 + 512 * input.len(),
{
    let freqs = byte_counts(input);
    if input.len() > 0 {
        lemma_total_count(input);
        lemma_huffman_codes(freqs);
        lemma_best_chunk(freqs);
        let c = best_chunk(freqs);
        let codes = huffman_codes(freqs).unwrap();
        lemma_table_kraft(freqs, Set::full(), 0);
        lemma_header_bits_len(freqs, c as u64, 256);
        lemma_code_bits_len(codes, input);
    }
}

/// The header cost that the chunk width is chosen by is the length of the
/// header that width writes.
proof fn lemma_header_cost_is_len(freqs: Seq<u64>, c: nat, k: nat)
    requires
        0 < c < 64,
    ensures
        header_cost(freqs, c, k) == header_bits(freqs, c as u64, k).len(),
    decreases k,
{
    if k > 0 {
        lemma_header_cost_is_len(freqs, c, (k - 1) as nat);
        let f = freqs[k - 1];
        lemma_varint_len(f, c as u64);
        assert(bit_length(1u64) == 1) by {
            assert(bit_length(0u64) == 0);
        }
        vstd::arithmetic::div_mod::lemma_div_basics(c as int);
        assert(chunks_for(1, c) == 1);
        if f != 0 {
            lemma_bit_length_zero(f);
        }
    }
}

/// Of the chunk widths 4 to 63, the one the header is written with makes the
/// header shortest.
pub proof fn lemma_best_chunk_shortest(freqs: Seq<u64>, d: nat)
    requires
        4 <= d <= 63,
    ensures
        header_bits(freqs, best_chunk(freqs) as u64, 256).len() <= header_bits(freqs, d as u64, 256).len(),
{
    lemma_best_chunk(freqs);
    let c = best_chunk(freqs);
    lemma_header_cost_is_len(freqs, c, 256);
    lemma_header_cost_is_len(freqs, d, 256);
    assert(header_cost(freqs, c, 256) <= header_cost(freqs, d, 256));
}

/// Codes follow the turns of the tree: at an internal node reached by the
/// prefix, the code of every byte under its left child has `false` next,
/// and that of every byte under its right child has `true`; below that the
/// code goes on as the child's own codes with that bit added to the prefix.
pub proof fn lemma_code_follows_turns(arena: Seq<Node>, id: nat, prefix: Seq<bool>)
    requires
        wf_node(arena, id),
        arena[id as int] is Internal,
    ensures
        forall|x: u8| #[trigger] leaves(arena, arena[id as int]->left as nat).contains(x) ==> {
            &&& tree_codes(arena, id, prefix).contains_key(x)
            &&& tree_codes(arena, id, prefix)[x].len() > prefix.len()
            &&& tree_codes(arena, id, prefix)[x].subrange(0, prefix.len() as int) == prefix
            &&& tree_codes(arena, id, prefix)[x][prefix.len() as int] == false
            &&& tree_codes(arena, id, prefix)[x] == tree_codes(arena, arena[id as int]->left as nat, prefix.push(false))[x]
        },
        forall|x: u8| #[trigger] leaves(arena, arena[id as int]->right as nat).contains(x) ==> {
            &&& tree_codes(arena, id, prefix).contains_key(x)
            &&& tree_codes(arena, id, prefix)[x].len() > prefix.len()
            &&& tree_codes(arena, id, prefix)[x].subrange(0, prefix.len() as int) == prefix
            &&& tree_codes(arena, id, prefix)[x][prefix.len() as int] == true
            &&& tree_codes(arena, id, prefix)[x] == tree_codes(arena, arena[id as int]->right as nat, prefix.push(true))[x]
        },
{
    if let Node::Internal { left, right, .. } = arena[id as int] {
        let pl = prefix.push(false);
        let pr = prefix.push(true);
        let m = tree_codes(arena, id, prefix);
        let ml = tree_codes(arena, left as nat, pl);
        let mr = tree_codes(arena, right as nat, pr);
        lemma_tree_codes(arena, id, prefix);
        lemma_tree_codes(arena, left as nat, pl);
        lemma_tree_codes(arena, right as nat, pr);
        assert forall|x: u8| #[trigger] leaves(arena, left as nat).contains(x) implies {
            &&& m.contains_key(x)
            &&& m[x].len() > prefix.len()
            &&& m[x].subrange(0, prefix.len() as int) == prefix
            &&& m[x][prefix.len() as int] == false
        } by {
            assert(!mr.contains_key(x));
            assert(m[x] == ml[x]);
            assert(ml.contains_key(x));
            assert(ml[x].subrange(0, pl.len() as int) == pl);
            assert(ml[x][prefix.len() as int] == ml[x].subrange(0, pl.len() as int)[prefix.len() as int]);
            assert(ml[x].subrange(0, prefix.len() as int) =~= pl.subrange(0, prefix.len() as int));
        }
        assert forall|x: u8| #[trigger] leaves(arena, right as nat).contains(x) implies {
            &&& m.contains_key(x)
            &&& m[x].len() > prefix.len()
            &&& m[x].subrange(0, prefix.len() as int) == prefix
            &&& m[x][prefix.len() as int] == true
        } by {
            assert(mr.contains_key(x));
            assert(m[x] == mr[x]);
            assert(mr[x].subrange(0, pr.len() as int) == pr);
            assert(mr[x][prefix.len() as int] == mr[x].subrange(0, pr.len() as int)[prefix.len() as int]);
            assert(mr[x].subrange(0, prefix.len() as int) =~= pr.subrange(0, prefix.len() as int));
        }
    }
}

/// The count a node carries.
pub open spec fn node_freq(n: Node) -> u64 {
    match n {
        Node::Leaf { freq, .. } => freq,
        Node::Internal { freq, .. } => freq,
    }
}

/// Every internal node joins two earlier nodes, carries the sum of their
/// counts, and has the lighter of the two (or either, when they weigh the
/// same) on its left.
#[verifier::opaque]
pub open spec fn merges_ordered(arena: Seq<Node>) -> bool {
    forall|i: int|
        0 <= i < arena.len() && (#[trigger] arena[i]) is Internal ==> {
            &&& (arena[i]->left as int) < i
            &&& (arena[i]->right as int) < i
            &&& node_freq(arena[arena[i]->left as int]) <= node_freq(arena[arena[i]->right as int])
            &&& node_freq(arena[i]) == node_freq(arena[arena[i]->left as int]) + node_freq(arena[arena[i]->right as int])
        }
}

/// Each heap entry names a node and weighs that node's count.
#[verifier::opaque]
spec fn entries_fit(h: Seq<Entry>, arena: Seq<Node>) -> bool {
    forall|e: Entry| #[trigger] h.to_multiset().contains(e) ==> (e.1 as nat) < arena.len() && e.0 == node_freq(arena[e.1 as int])
}

proof fn lemma_join_shape(arena: Seq<Node>, a: Entry, b: Entry)
    requires
        merges_ordered(arena),
        (a.1 as nat) < arena.len(),
        (b.1 as nat) < arena.len(),
        a.0 == node_freq(arena[a.1 as int]),
        b.0 == node_freq(arena[b.1 as int]),
        a.0 <= b.0,
        a.0 + b.0 <= u64::MAX,
    ensures
        merges_ordered(arena.push(Node::Internal { freq: (a.0 + b.0) as u64, left: a.1, right: b.1 })),
{
    reveal(merges_ordered);
    let node = Node::Internal { freq: (a.0 + b.0) as u64, left: a.1, right: b.1 };
    let a2 = arena.push(node);
    assert forall|i: int| 0 <= i < a2.len() && (#[trigger] a2[i]) is Internal implies {
        &&& (a2[i]->left as int) < i
        &&& (a2[i]->right as int) < i
        &&& node_freq(a2[a2[i]->left as int]) <= node_freq(a2[a2[i]->right as int])
        &&& node_freq(a2[i]) == node_freq(a2[a2[i]->left as int]) + node_freq(a2[a2[i]->right as int])
    } by {
        if i < arena.len() {
            assert(a2[i] == arena[i]);
            assert(arena[i] is Internal);
        } else {
            assert(a2[i] == node);
        }
    }
}

proof fn lemma_join_fit(h: Seq<Entry>, h2: Seq<Entry>, arena: Seq<Node>, e: Entry, node: Node)
    requires
        entries_fit(h, arena),
        forall|x: Entry| #[trigger] h2.to_multiset().contains(x) ==> h.to_multiset().contains(x),
        e.1 == arena.len(),
        e.0 == node_freq(node),
    ensures
        entries_fit(push(h2, e), arena.push(node)),
{
    broadcast use vstd::multiset::group_multiset_axioms;
    reveal(entries_fit);
    lemma_push(h2, e);
    let a2 = arena.push(node);
    assert forall|x: Entry| #[trigger] push(h2, e).to_multiset().contains(x) implies (x.1 as nat) < a2.len() && x.0
        == node_freq(a2[x.1 as int]) by {
        if x != e {
            assert(h2.to_multiset().contains(x));
            assert(h.to_multiset().contains(x));
        }
    }
}

proof fn lemma_pop_pair_facts(h: Seq<Entry>)
    requires
        heap_ordered(h),
        h.len() >= 2,
    ensures
        ({
            let (a, h1) = pop(h);
            let (b, h2) = pop(h1);
            &&& h.to_multiset().contains(a)
            &&& h.to_multiset().contains(b)
            &&& a.0 <= b.0
            &&& forall|x: Entry| #[trigger] h2.to_multiset().contains(x) ==> h.to_multiset().contains(x)
            &&& heap_ordered(h2)
            &&& h2.len() == h.len() - 2
        }),
{
    broadcast use vstd::multiset::group_multiset_axioms;
    let (a, h1) = pop(h);
    let (b, h2) = pop(h1);
    lemma_pop(h);
    lemma_pop(h1);
    lemma_pop_ordered(h);
    lemma_pop_ordered(h1);
    let m = h.to_multiset();
    let m1 = h1.to_multiset();
    let m2 = h2.to_multiset();
    assert(m1.contains(b));
    assert(m.contains(b));
    vstd::seq_lib::to_multiset_contains(h, b);
    let j = choose|j: int| 0 <= j < h.len() && h[j] == b;
    assert(a.0 <= h[j].0);
    assert forall|x: Entry| #[trigger] m2.contains(x) implies m.contains(x) by {
        assert(m1.contains(x));
    }
}

#[verifier::spinoff_prover]
proof fn lemma_merge_shape(h: Seq<Entry>, arena: Seq<Node>)
    requires
        heap_ordered(h),
        entries_fit(h, arena),
        merges_ordered(arena),
        arena.len() + h.len() <= 512,
    ensures
        merge_all(h, arena) matches Some((ar, root)) ==> merges_ordered(ar),
    decreases h.len(),
{
    if h.len() >= 2 {
        let (a, h1) = pop(h);
        let (b, h2) = pop(h1);
        lemma_pop_pair_facts(h);
        if a.0 + b.0 <= u64::MAX {
            let e: Entry = ((a.0 + b.0) as u64, arena.len() as usize);
            let node = Node::Internal { freq: e.0, left: a.1, right: b.1 };
            assert((a.1 as nat) < arena.len() && a.0 == node_freq(arena[a.1 as int])) by {
                reveal(entries_fit);
            }
            assert((b.1 as nat) < arena.len() && b.0 == node_freq(arena[b.1 as int])) by {
                reveal(entries_fit);
            }
            lemma_join_shape(arena, a, b);
            lemma_join_fit(h, h2, arena, e, node);
            lemma_push(h2, e);
            lemma_push_ordered(h2, e);
            lemma_merge_shape(push(h2, e), arena.push(node));
            assert(merge_all(h, arena) == merge_all(push(h2, e), arena.push(node)));
        }
    }
}

/// The Huffman tree of any table is built by joining the lighter of two
/// subtrees on the left: every internal node carries the sum of its
/// children's counts, and its left child weighs no more than its right.
pub proof fn lemma_huffman_tree_shape(freqs: Seq<u64>, keys: Set<u8>)
    requires
        freqs.len() == 256,
    ensures
        table_tree(freqs, keys) matches Some((arena, root)) ==> merges_ordered(arena),
{
    broadcast use vstd::multiset::group_multiset_axioms, vstd::multiset::group_multiset_properties;
    let h = leaf_heap(freqs, keys, 256);
    let a = leaf_arena(freqs, keys, 256);
    lemma_leaf_start(freqs, keys, 256);
    lemma_leaf_heap_ordered(freqs, keys, 256);
    reveal(merges_ordered);
    reveal(entries_fit);
    assert forall|i: int| 0 <= i < a.len() && (#[trigger] a[i]) is Internal implies {
        &&& (a[i]->left as int) < i
        &&& (a[i]->right as int) < i
        &&& node_freq(a[a[i]->left as int]) <= node_freq(a[a[i]->right as int])
        &&& node_freq(a[i]) == node_freq(a[a[i]->left as int]) + node_freq(a[a[i]->right as int])
    } by {
        assert(a[i] == Node::Leaf { symbol: leaf_symbol(a[i]), freq: freqs[leaf_symbol(a[i]) as int] });
    }
    assert forall|e: Entry| #[trigger] h.to_multiset().contains(e) implies (e.1 as nat) < a.len() && e.0 == node_freq(
        a[e.1 as int],
    ) by {
        let i = e.1 as int;
        assert(a[i] == Node::Leaf { symbol: leaf_symbol(a[i]), freq: freqs[leaf_symbol(a[i]) as int] });
    }
    lemma_merge_shape(h, a);
}

} // verus!
