//! A B-tree over fixed-width keys, kept as the in-memory image of its index
//! file.
//!
//! The index file is a 14-byte header (`t`, `root_offset`, `keysize`) followed
//! by a packed arena of fixed-width nodes; a node is addressed by its byte
//! offset `14 + i * node_size`.  The in-memory form holds the same arena as a
//! vector of nodes and records child links by arena position (`-1` marks an
//! absent child, exactly as on disk); serialization converts positions to byte
//! offsets and back.

use vstd::prelude::*;
use crate::bytes::{lex_le, lex_lt, pad_spec, pad_bytes, bytes_eq, bytes_le, lemma_lex_le_refl, lemma_lex_le_trans,
    lemma_lex_le_antisym, lemma_lex_le_total, le_bytes, le_val, lemma_le_bytes_len, lemma_le_round_trip,
    lemma_le_bytes_of_val, lemma_le_val_bound, pow256, lemma_pow256_8, push_le, read_le, append_bytes, sub_bytes,
    is_zero_range};

verus! {

/// Why an operation on the store was refused.
#[derive(Clone, Copy, PartialEq, Eq, Structural, Debug)]
pub enum StoreError {
    /// A key or value wider than the configured width.
    InvalidInput,
    /// Bytes that are not a well-formed image written by this library.
    Corrupt,
    /// An index grown past what the signed on-disk child slots can address.
    TooLarge,
}

/// The largest node count up to which an insertion is still accepted.
pub const NODE_CAP: u64 = 0x1000_0000_0000_0000;

/// One B-tree node: up to `2t-1` live keys with their heap-file offsets, and
/// up to `2t` children.  `keys` and `values` hold only the live slots; the
/// `children` vector always has length `2t`, holding an arena position or
/// `-1` for an absent child.
pub(crate) struct Node {
    pub(crate) keys: Vec<Vec<u8>>,
    pub(crate) values: Vec<u64>,
    pub(crate) children: Vec<i64>,
}

/// The mathematical content of a node.
#[verifier::ext_equal]
pub ghost struct NodeV {
    pub keys: Seq<Seq<u8>>,
    pub values: Seq<u64>,
    pub children: Seq<i64>,
}

impl View for Node {
    type V = NodeV;

    closed spec fn view(&self) -> NodeV {
        NodeV {
            keys: Seq::new(self.keys@.len(), |i: int| self.keys@[i]@),
            values: self.values@,
            children: self.children@,
        }
    }
}

/// A node with no child in slot 0 is a leaf; there is no explicit flag.
pub open spec fn is_leaf(nv: NodeV) -> bool {
    nv.children.len() == 0 || nv.children[0] == -1
}

/// A live child slot must name a node of the arena.
pub open spec fn child_ok(c: i64, num: int) -> bool {
    0 <= c && (c as int) < num
}

/// Structural well-formedness of one node, within an arena of `num` nodes,
/// for minimum degree `t` and key width `k`.
pub open spec fn node_wf(nv: NodeV, t: nat, k: nat, num: int) -> bool {
    let n = nv.keys.len() as int;
    &&& nv.keys.len() <= 2 * t - 1
    &&& nv.values.len() == nv.keys.len()
    &&& nv.children.len() == 2 * t
    &&& (forall|i: int| 0 <= i < n ==> (#[trigger] nv.keys[i]).len() == k)
    &&& (forall|i: int, j: int| 0 <= i <= j < n ==> lex_le(nv.keys[i], nv.keys[j]))
    &&& (if is_leaf(nv) {
        forall|i: int| 0 <= i < nv.children.len() ==> nv.children[i] == -1
    } else {
        &&& (forall|i: int| 0 <= i <= n ==> child_ok(#[trigger] nv.children[i], num))
        &&& (forall|i: int| n < i < nv.children.len() ==> nv.children[i] == -1)
    })
}

/// The (key, value) pairs stored in the node itself, in slot order.
pub open spec fn pairs(nv: NodeV) -> Seq<(Seq<u8>, u64)> {
    Seq::new(nv.keys.len(), |j: int| (nv.keys[j], nv.values[j]))
}

/// The in-order entry sequence of the subtree rooted at arena position `i`,
/// computed with recursion fuel `f`.
pub open spec fn entries(nodes: Seq<NodeV>, i: int, f: nat) -> Seq<(Seq<u8>, u64)>
    decreases f, 0int,
{
    if f == 0 || !(0 <= i < nodes.len()) {
        Seq::empty()
    } else {
        let nv = nodes[i];
        if is_leaf(nv) {
            pairs(nv)
        } else {
            ent_upto(nodes, nv, nv.keys.len() as int, (f - 1) as nat)
        }
    }
}

/// In-order entries of children `0..=m` interleaved with keys `0..m`.
pub open spec fn ent_upto(nodes: Seq<NodeV>, nv: NodeV, m: int, f: nat) -> Seq<(Seq<u8>, u64)>
    decreases f, m + 1,
{
    if m < 0 {
        Seq::empty()
    } else if m == 0 {
        entries(nodes, nv.children[0] as int, f)
    } else {
        ent_upto(nodes, nv, m - 1, f) + seq![(nv.keys[m - 1], nv.values[m - 1])] + entries(
            nodes,
            nv.children[m] as int,
            f,
        )
    }
}

/// The set of arena positions reachable from position `i` with fuel `f`.
pub open spec fn reach(nodes: Seq<NodeV>, i: int, f: nat) -> Set<int>
    decreases f, 0int,
{
    if f == 0 || !(0 <= i < nodes.len()) || is_leaf(nodes[i]) {
        set!{i}
    } else {
        set!{i}.union(
            kids_reach(nodes, nodes[i].children, nodes[i].keys.len() as int + 1, (f - 1) as nat),
        )
    }
}

/// Union of the reach of children `0..m`.
pub open spec fn kids_reach(nodes: Seq<NodeV>, cs: Seq<i64>, m: int, f: nat) -> Set<int>
    decreases f, m,
{
    if m <= 0 {
        Set::empty()
    } else {
        kids_reach(nodes, cs, m - 1, f).union(reach(nodes, cs[m - 1] as int, f))
    }
}

/// Entries of the `j`-th child of node `i`.
pub open spec fn child_entries(nodes: Seq<NodeV>, i: int, j: int, f: nat) -> Seq<(Seq<u8>, u64)> {
    entries(nodes, nodes[i].children[j] as int, f)
}

/// Reach of the `j`-th child of node `i`.
pub open spec fn child_reach(nodes: Seq<NodeV>, i: int, j: int, f: nat) -> Set<int> {
    reach(nodes, nodes[i].children[j] as int, f)
}

/// Every key of `es` is `<=` `hi`.
pub open spec fn all_keys_le(es: Seq<(Seq<u8>, u64)>, hi: Seq<u8>) -> bool {
    forall|e: int| 0 <= e < es.len() ==> lex_le((#[trigger] es[e]).0, hi)
}

/// Every key of `es` is `>=` `lo`.
pub open spec fn all_keys_ge(es: Seq<(Seq<u8>, u64)>, lo: Seq<u8>) -> bool {
    forall|e: int| 0 <= e < es.len() ==> lex_le(lo, (#[trigger] es[e]).0)
}

/// Some entry of `es` carries `key`.
pub open spec fn has_key(es: Seq<(Seq<u8>, u64)>, key: Seq<u8>) -> bool {
    exists|e: int| 0 <= e < es.len() && (#[trigger] es[e]).0 == key
}

/// Every node of the arena is structurally sound.
/// How far a node's key count stands above the post-split count `t - 1`:
/// the budget a future split of this node will consume.
pub open spec fn node_excess(nv: NodeV, t: nat) -> int {
    if nv.keys.len() > t - 1 {
        nv.keys.len() - (t - 1)
    } else {
        0
    }
}

/// The total split budget of the arena.
pub open spec fn arena_excess(nodes: Seq<NodeV>, t: nat) -> int
    decreases nodes.len(),
{
    if nodes.len() == 0 {
        0
    } else {
        arena_excess(nodes.drop_last(), t) + node_excess(nodes.last(), t)
    }
}

pub proof fn lemma_excess_nonneg(nodes: Seq<NodeV>, t: nat)
    ensures
        arena_excess(nodes, t) >= 0,
    decreases nodes.len(),
{
    if nodes.len() > 0 {
        lemma_excess_nonneg(nodes.drop_last(), t);
    }
}

pub proof fn lemma_excess_push(nodes: Seq<NodeV>, nv: NodeV, t: nat)
    ensures
        arena_excess(nodes.push(nv), t) == arena_excess(nodes, t) + node_excess(nv, t),
{
    assert(nodes.push(nv).drop_last() =~= nodes);
    assert(nodes.push(nv).last() == nv);
}

pub proof fn lemma_excess_update(nodes: Seq<NodeV>, j: int, nv: NodeV, t: nat)
    requires
        0 <= j < nodes.len(),
    ensures
        arena_excess(nodes.update(j, nv), t) == arena_excess(nodes, t) - node_excess(
            nodes[j],
            t,
        ) + node_excess(nv, t),
    decreases nodes.len(),
{
    if j == nodes.len() - 1 {
        assert(nodes.update(j, nv).drop_last() =~= nodes.drop_last());
        assert(nodes.update(j, nv).last() == nv);
    } else {
        lemma_excess_update(nodes.drop_last(), j, nv, t);
        assert(nodes.update(j, nv).drop_last() =~= nodes.drop_last().update(j, nv));
        assert(nodes.update(j, nv).last() == nodes.last());
        assert(nodes.drop_last()[j] == nodes[j]);
    }
}

pub open spec fn arena_wf(nodes: Seq<NodeV>, t: nat, k: nat) -> bool {
    forall|j: int| 0 <= j < nodes.len() ==> node_wf(#[trigger] nodes[j], t, k, nodes.len() as int)
}

/// The subtree rooted at `i` is a well-formed search tree: every node is
/// structurally sound, the entries of each child lie between the keys that
/// bracket it, and distinct children own disjoint parts of the arena.
pub open spec fn tree_ok(nodes: Seq<NodeV>, i: int, t: nat, k: nat, f: nat) -> bool
    decreases f, 0int,
{
    let nv = nodes[i];
    let n = nv.keys.len() as int;
    &&& f > 0
    &&& 0 <= i < nodes.len()
    &&& node_wf(nv, t, k, nodes.len() as int)
    &&& (!is_leaf(nv) ==> {
        &&& kids_ok(nodes, nv.children, n + 1, t, k, (f - 1) as nat)
        &&& (forall|j: int|
            0 <= j < n ==> all_keys_le(
                #[trigger] child_entries(nodes, i, j, (f - 1) as nat),
                nv.keys[j],
            ))
        &&& (forall|j: int|
            1 <= j <= n ==> all_keys_ge(
                #[trigger] child_entries(nodes, i, j, (f - 1) as nat),
                nv.keys[j - 1],
            ))
        &&& (forall|j: int|
            0 <= j <= n ==> !(#[trigger] child_reach(nodes, i, j, (f - 1) as nat)).contains(i))
        &&& (forall|j1: int, j2: int|
            0 <= j1 < j2 <= n ==> (#[trigger] child_reach(nodes, i, j1, (f - 1) as nat)).disjoint(
                #[trigger] child_reach(nodes, i, j2, (f - 1) as nat),
            ))
    })
}

/// Children `0..m` are all well-formed search trees with fuel `f`.
pub open spec fn kids_ok(nodes: Seq<NodeV>, cs: Seq<i64>, m: int, t: nat, k: nat, f: nat) -> bool
    decreases f, m,
{
    if m <= 0 {
        true
    } else {
        kids_ok(nodes, cs, m - 1, t, k, f) && tree_ok(nodes, cs[m - 1] as int, t, k, f)
    }
}

pub proof fn lemma_kids_ok_index(nodes: Seq<NodeV>, cs: Seq<i64>, m: int, t: nat, k: nat, f: nat, j: int)
    requires
        kids_ok(nodes, cs, m, t, k, f),
        0 <= j < m,
    ensures
        tree_ok(nodes, cs[j] as int, t, k, f),
    decreases m,
{
    if j < m - 1 {
        lemma_kids_ok_index(nodes, cs, m - 1, t, k, f, j);
    }
}

pub proof fn lemma_kids_ok_build(nodes: Seq<NodeV>, cs: Seq<i64>, m: int, t: nat, k: nat, f: nat)
    requires
        forall|j: int| 0 <= j < m ==> tree_ok(nodes, #[trigger] cs[j] as int, t, k, f),
    ensures
        kids_ok(nodes, cs, m, t, k, f),
    decreases m,
{
    if m > 0 {
        lemma_kids_ok_build(nodes, cs, m - 1, t, k, f);
    }
}

pub proof fn lemma_reach_self(nodes: Seq<NodeV>, i: int, f: nat)
    ensures
        reach(nodes, i, f).contains(i),
{
}

pub proof fn lemma_kids_reach_sub(nodes: Seq<NodeV>, cs: Seq<i64>, m: int, f: nat, j: int)
    requires
        0 <= j < m,
    ensures
        reach(nodes, cs[j] as int, f).subset_of(kids_reach(nodes, cs, m, f)),
    decreases m,
{
    if j < m - 1 {
        lemma_kids_reach_sub(nodes, cs, m - 1, f, j);
    }
}

pub proof fn lemma_kids_reach_elem(nodes: Seq<NodeV>, cs: Seq<i64>, m: int, f: nat, x: int)
    requires
        kids_reach(nodes, cs, m, f).contains(x),
    ensures
        exists|j: int| 0 <= j < m && reach(nodes, #[trigger] cs[j] as int, f).contains(x),
    decreases m,
{
    if m > 0 {
        if kids_reach(nodes, cs, m - 1, f).contains(x) {
            lemma_kids_reach_elem(nodes, cs, m - 1, f, x);
        } else {
            assert(reach(nodes, cs[m - 1] as int, f).contains(x));
        }
    }
}

pub proof fn lemma_all_keys_le_contains(es: Seq<(Seq<u8>, u64)>, hi: Seq<u8>, x: (Seq<u8>, u64))
    requires
        all_keys_le(es, hi),
        es.contains(x),
    ensures
        lex_le(x.0, hi),
{
    let i = choose|i: int| 0 <= i < es.len() && es[i] == x;
    assert(lex_le(es[i].0, hi));
}

pub proof fn lemma_all_keys_ge_contains(es: Seq<(Seq<u8>, u64)>, lo: Seq<u8>, x: (Seq<u8>, u64))
    requires
        all_keys_ge(es, lo),
        es.contains(x),
    ensures
        lex_le(lo, x.0),
{
    let i = choose|i: int| 0 <= i < es.len() && es[i] == x;
    assert(lex_le(lo, es[i].0));
}

/// Under `tree_ok`, every reachable position names a node of the arena.
pub proof fn lemma_reach_valid(nodes: Seq<NodeV>, i: int, t: nat, k: nat, f: nat)
    requires
        tree_ok(nodes, i, t, k, f),
    ensures
        forall|x: int| reach(nodes, i, f).contains(x) ==> 0 <= x < nodes.len(),
    decreases f,
{
    let nv = nodes[i];
    let n = nv.keys.len() as int;
    if !is_leaf(nv) {
        assert forall|x: int| reach(nodes, i, f).contains(x) implies 0 <= x < nodes.len() by {
            if x != i {
                assert(kids_reach(nodes, nv.children, n + 1, (f - 1) as nat).contains(x));
                lemma_kids_reach_elem(nodes, nv.children, n + 1, (f - 1) as nat, x);
                let j = choose|j: int|
                    0 <= j < n + 1 && reach(nodes, #[trigger] nv.children[j] as int, (f - 1) as nat)
                        .contains(x);
                lemma_kids_ok_index(nodes, nv.children, n + 1, t, k, (f - 1) as nat, j);
                lemma_reach_valid(nodes, nv.children[j] as int, t, k, (f - 1) as nat);
            }
        }
    }
}

/// Membership in a concatenation splits over the parts.
pub proof fn lemma_concat_contains<A>(a: Seq<A>, b: Seq<A>, x: A)
    ensures
        (a + b).contains(x) == (a.contains(x) || b.contains(x)),
{
    if a.contains(x) {
        let i = choose|i: int| 0 <= i < a.len() && a[i] == x;
        assert((a + b)[i] == x);
    }
    if b.contains(x) {
        let i = choose|i: int| 0 <= i < b.len() && b[i] == x;
        assert((a + b)[a.len() + i] == x);
    }
    if (a + b).contains(x) {
        let i = choose|i: int| 0 <= i < (a + b).len() && (a + b)[i] == x;
        if i < a.len() {
            assert(a[i] == x);
        } else {
            assert(b[i - a.len()] == x);
        }
    }
}

/// Anything stored in child `j <= m` appears in `ent_upto(.., m, ..)`.
pub proof fn lemma_ent_upto_contains_child(
    nodes: Seq<NodeV>,
    nv: NodeV,
    m: int,
    f: nat,
    j: int,
    x: (Seq<u8>, u64),
)
    requires
        0 <= j <= m,
        entries(nodes, nv.children[j] as int, f).contains(x),
    ensures
        ent_upto(nodes, nv, m, f).contains(x),
    decreases m,
{
    if m > 0 {
        let a = ent_upto(nodes, nv, m - 1, f) + seq![(nv.keys[m - 1], nv.values[m - 1])];
        let b = entries(nodes, nv.children[m] as int, f);
        if j < m {
            lemma_ent_upto_contains_child(nodes, nv, m - 1, f, j, x);
            lemma_concat_contains(ent_upto(nodes, nv, m - 1, f), seq![(nv.keys[m - 1], nv.values[m - 1])], x);
            lemma_concat_contains(a, b, x);
        } else {
            lemma_concat_contains(a, b, x);
        }
    }
}

/// The node's own `j`-th pair (`j < m`) appears in `ent_upto(.., m, ..)`.
pub proof fn lemma_ent_upto_contains_pair(nodes: Seq<NodeV>, nv: NodeV, m: int, f: nat, j: int)
    requires
        0 <= j < m,
    ensures
        ent_upto(nodes, nv, m, f).contains((nv.keys[j], nv.values[j])),
    decreases m,
{
    let a = ent_upto(nodes, nv, m - 1, f) + seq![(nv.keys[m - 1], nv.values[m - 1])];
    let b = entries(nodes, nv.children[m] as int, f);
    let x = (nv.keys[j], nv.values[j]);
    if j == m - 1 {
        assert(a[a.len() - 1] == x);
        assert(a.contains(x));
    } else {
        lemma_ent_upto_contains_pair(nodes, nv, m - 1, f, j);
        lemma_concat_contains(ent_upto(nodes, nv, m - 1, f), seq![(nv.keys[m - 1], nv.values[m - 1])], x);
    }
    lemma_concat_contains(a, b, x);
}

/// Anything in `ent_upto(.., m, ..)` is a pair of the node itself or lies in
/// one of the children `0..=m`.
pub proof fn lemma_ent_upto_cases(nodes: Seq<NodeV>, nv: NodeV, m: int, f: nat, x: (Seq<u8>, u64))
    requires
        0 <= m,
        ent_upto(nodes, nv, m, f).contains(x),
    ensures
        (exists|j: int|
            0 <= j <= m && entries(nodes, #[trigger] nv.children[j] as int, f).contains(x)) || (
        exists|j: int| 0 <= j < m && x == (nv.keys[j], nv.values[j])),
    decreases m,
{
    if m > 0 {
        let a0 = ent_upto(nodes, nv, m - 1, f);
        let p = seq![(nv.keys[m - 1], nv.values[m - 1])];
        let b = entries(nodes, nv.children[m] as int, f);
        lemma_concat_contains(a0 + p, b, x);
        if b.contains(x) {
            assert(entries(nodes, nv.children[m] as int, f).contains(x));
        } else {
            lemma_concat_contains(a0, p, x);
            if p.contains(x) {
                assert(x == (nv.keys[m - 1], nv.values[m - 1]));
            } else {
                lemma_ent_upto_cases(nodes, nv, m - 1, f, x);
            }
        }
    }
}

/// The handle on an index: the B-tree parameters and the node arena, the
/// in-memory image of one index file.
pub struct Index {
    pub(crate) t: u32,
    pub(crate) keysize: u16,
    pub(crate) root: usize,
    pub(crate) nodes: Vec<Node>,
}

/// The mathematical content of an index.
#[verifier::ext_equal]
pub ghost struct IndexV {
    pub t: nat,
    pub keysize: nat,
    pub root: int,
    pub nodes: Seq<NodeV>,
}

impl View for Index {
    type V = IndexV;

    closed spec fn view(&self) -> IndexV {
        IndexV {
            t: self.t as nat,
            keysize: self.keysize as nat,
            root: self.root as int,
            nodes: Seq::new(self.nodes@.len(), |i: int| self.nodes@[i]@),
        }
    }
}

impl IndexV {
    /// Fuel that always suffices to walk the tree: one more than the number
    /// of nodes in the arena.
    pub open spec fn fuel(self) -> nat {
        (self.nodes.len() + 1) as nat
    }

    /// Node count plus split budget: grows by at most two per insertion, so
    /// it bounds how large the arena can get over a run of insertions.
    pub open spec fn load(self) -> int {
        self.nodes.len() + arena_excess(self.nodes, self.t)
    }

    /// Well-formedness of the whole index: bounded parameters, every arena
    /// node structurally sound, and a well-formed search tree at the root.
    pub open spec fn wf(self) -> bool {
        &&& 2 <= self.t <= 0x4000_0000
        &&& self.keysize <= 0xFFFF
        &&& 1 <= self.nodes.len()
        &&& 0 <= self.root < self.nodes.len()
        &&& arena_wf(self.nodes, self.t, self.keysize)
        &&& tree_ok(self.nodes, self.root, self.t, self.keysize, self.fuel())
    }

    /// The in-order entry sequence of the whole tree.
    pub open spec fn entry_list(self) -> Seq<(Seq<u8>, u64)> {
        entries(self.nodes, self.root, self.fuel())
    }
}

impl Index {
    pub open spec fn wf(&self) -> bool {
        self@.wf()
    }

    /// The in-order entry sequence of the whole tree.
    pub open spec fn entry_list(&self) -> Seq<(Seq<u8>, u64)> {
        self@.entry_list()
    }

    /// The configured key width.
    pub fn keysize(&self) -> (r: u16)
        ensures
            r as nat == self@.keysize,
    {
        self.keysize
    }

    /// The configured minimum degree.
    pub fn degree(&self) -> (r: u32)
        ensures
            r as nat == self@.t,
    {
        self.t
    }

    /// Create a fresh index with minimum degree `t` and key width `keysize`:
    /// a single empty root node.  Fails if and only if `t < 2`.  The bound
    /// on `t` keeps every slot count and node size inside its machine
    /// arithmetic (`2 * t` in 32 bits, node sizes in 64); it caps a degree
    /// no file below the exabyte range could use.
    pub fn create(t: u32, keysize: u16) -> (r: Result<Index, StoreError>)
        requires
            t <= 0x4000_0000,
        ensures
            t < 2 ==> r == Err::<Index, StoreError>(StoreError::InvalidInput),
            t >= 2 ==> match r {
                Ok(idx) => {
                    &&& idx.wf()
                    &&& idx@.t == t as nat
                    &&& idx@.keysize == keysize as nat
                    &&& idx@.nodes.len() == 1
                    &&& idx@.root == 0
                    &&& idx@.load() == 1
                    &&& idx.entry_list() =~= Seq::<(Seq<u8>, u64)>::empty()
                },
                Err(_) => false,
            },
    {
        if t < 2 {
            return Err(StoreError::InvalidInput);
        }
        let children = neg_ones((2 * t) as usize);
        let root = Node { keys: Vec::new(), values: Vec::new(), children };
        let mut nodes: Vec<Node> = Vec::new();
        nodes.push(root);
        let idx = Index { t, keysize, root: 0, nodes };
        proof {
            assert(idx@.nodes.len() == 1);
            let nv = idx@.nodes[0];
            assert(nv.keys.len() == 0);
            assert(nv.children.len() == 2 * t);
            assert(is_leaf(nv));
            assert(node_wf(nv, t as nat, keysize as nat, 1));
            assert(tree_ok(idx@.nodes, 0, t as nat, keysize as nat, idx@.fuel()));
            assert(pairs(nv) =~= Seq::<(Seq<u8>, u64)>::empty());
            assert(idx@.nodes.drop_last() =~= Seq::<NodeV>::empty());
            assert(idx@.nodes.last() == nv);
            assert(node_excess(nv, t as nat) == 0);
            assert(arena_excess(Seq::<NodeV>::empty(), t as nat) == 0);
            assert(arena_excess(idx@.nodes, t as nat) == 0);
        }
        Ok(idx)
    }

    /// The byte offset of the current root node within the index file.
    pub fn root_offset(&self) -> (r: u64)
        requires
            self.wf(),
            self@.file_fits(),
        ensures
            r as int == node_off(self@.root, self@.t, self@.keysize),
    {
        let ns = node_size_u64(self.t, self.keysize);
        proof {
            let num = self@.nodes.len() as int;
            assert((self.root as int) * (ns as int) <= (num - 1) * (ns as int)) by (nonlinear_arith)
                requires
                    0 <= self.root as int <= num - 1,
                    ns as int >= 1,
            ;
            assert((num - 1) * (ns as int) <= num * (ns as int)) by (nonlinear_arith)
                requires
                    ns as int >= 0,
            ;
        }
        14 + (self.root as u64) * ns
    }

    /// Write the whole index file image: the 14-byte header (`t`,
    /// `root_offset`, `keysize`, all little-endian) followed by the packed
    /// node arena.
    pub fn to_bytes(&self) -> (r: Vec<u8>)
        requires
            self.wf(),
            self@.file_fits(),
        ensures
            r@ == index_bytes(self@),
    {
        let ghost iv = self@;
        let mut out: Vec<u8> = Vec::new();
        proof {
            lemma_pow256_8();
        }
        push_le(&mut out, self.t as u64, 4);
        let roff = self.root_offset();
        push_le(&mut out, roff, 8);
        push_le(&mut out, self.keysize as u64, 2);
        let ghost header = out@;
        proof {
            assert(header =~= le_bytes(iv.t, 4) + le_bytes(
                node_off(iv.root, iv.t, iv.keysize) as nat,
                8,
            ) + le_bytes(iv.keysize, 2));
            assert(out@ =~= header + arena_bytes(iv.nodes, 0, iv.t, iv.keysize));
        }
        let num = self.nodes.len();
        let mut i: usize = 0;
        while i < num
            invariant
                i <= num,
                num == iv.nodes.len(),
                iv == self@,
                self.wf(),
                self@.file_fits(),
                header == le_bytes(iv.t, 4) + le_bytes(
                    node_off(iv.root, iv.t, iv.keysize) as nat,
                    8,
                ) + le_bytes(iv.keysize, 2),
                out@ =~= header + arena_bytes(iv.nodes, i as int, iv.t, iv.keysize),
            decreases num - i,
        {
            let ghost prev = out@;
            proof {
                assert(node_wf(iv.nodes[i as int], iv.t, iv.keysize, iv.nodes.len() as int));
                assert(self.nodes@[i as int]@ == iv.nodes[i as int]);
            }
            serialize_node(&mut out, &self.nodes[i], self.t, self.keysize, Ghost(num as int));
            proof {
                assert(arena_bytes(iv.nodes, i as int + 1, iv.t, iv.keysize) == arena_bytes(
                    iv.nodes,
                    i as int,
                    iv.t,
                    iv.keysize,
                ) + node_bytes(iv.nodes[i as int], iv.t, iv.keysize));
                assert(out@ =~= header + arena_bytes(iv.nodes, i as int + 1, iv.t, iv.keysize));
            }
            i = i + 1;
        }
        proof {
            assert(out@ =~= index_bytes(iv));
        }
        out
    }

    /// Read an index back from a file image.  `Ok` comes exactly for images
    /// in the canonical fixed layout, as `to_bytes` writes them; the image
    /// then spells the returned index, so re-serializing it reproduces the
    /// bytes unchanged, and any shaped index the image spells is the one
    /// returned.  Because this in-memory form materializes every node here
    /// rather than at first use, a malformed node region surfaces at open as
    /// `Corrupt` -- the point where a file-backed store would hit it as an
    /// I/O error on its first read of that node.
    pub fn open(bytes: &Vec<u8>) -> (res: Result<Index, StoreError>)
        ensures
            match res {
                Ok(idx) => bytes@ == index_bytes(idx@) && idx@.file_fits() && arena_shaped(idx@),
                Err(e) => e == StoreError::Corrupt,
            },
            forall|iv: IndexV|
                arena_shaped(iv) && iv.file_fits() && bytes@ == #[trigger] index_bytes(iv)
                    ==> res is Ok && res->Ok_0@ == iv,
    {
        let blen = bytes.len();
        if blen < 14 {
            proof {
                assert forall|iv: IndexV|
                    arena_shaped(iv) && iv.file_fits() && bytes@ == #[trigger] index_bytes(
                        iv,
                    ) implies false by {
                    lemma_canonical_index_facts(bytes@, iv);
                    assert(iv.nodes.len() * node_size(iv.t, iv.keysize) >= 0) by (nonlinear_arith)
                        requires
                            iv.nodes.len() >= 0,
                            node_size(iv.t, iv.keysize) >= 1,
                    ;
                }
            }
            return Err(StoreError::Corrupt);
        }
        proof {
            lemma_pow256_8();
            lemma_le_val_bound(bytes@.subrange(0, 4));
            lemma_le_val_bound(bytes@.subrange(12, 14));
        }
        let t64 = read_le(bytes, 0, 4);
        let roff = read_le(bytes, 4, 8);
        let ks64 = read_le(bytes, 12, 2);
        if t64 < 2 || t64 > 0x4000_0000 {
            proof {
                assert forall|iv: IndexV|
                    arena_shaped(iv) && iv.file_fits() && bytes@ == #[trigger] index_bytes(
                        iv,
                    ) implies false by {
                    lemma_canonical_index_facts(bytes@, iv);
                    assert(t64 as nat == iv.t);
                }
            }
            return Err(StoreError::Corrupt);
        }
        let t = t64 as u32;
        let keysize = ks64 as u16;
        let ghost tn = t as nat;
        let ghost kn = keysize as nat;
        let ns = node_size_u64(t, keysize);
        let body = (blen - 14) as u64;
        if body % ns != 0 {
            proof {
                assert forall|iv: IndexV|
                    arena_shaped(iv) && iv.file_fits() && bytes@ == #[trigger] index_bytes(
                        iv,
                    ) implies false by {
                    lemma_canonical_index_facts(bytes@, iv);
                    assert(iv.t == tn);
                    assert(iv.keysize == kn);
                    let nsv = node_size(iv.t, iv.keysize);
                    assert(ns as int == nsv);
                    assert(bytes@.len() == 14 + iv.nodes.len() * nsv);
                    assert(body as int == iv.nodes.len() * nsv);
                    vstd::arithmetic::div_mod::lemma_mod_multiples_basic(
                        iv.nodes.len() as int,
                        nsv,
                    );
                }
            }
            return Err(StoreError::Corrupt);
        }
        let num64 = body / ns;
        if num64 == 0 {
            proof {
                assert forall|iv: IndexV|
                    arena_shaped(iv) && iv.file_fits() && bytes@ == #[trigger] index_bytes(
                        iv,
                    ) implies false by {
                    lemma_canonical_index_facts(bytes@, iv);
                    assert(iv.t == tn);
                    assert(iv.keysize == kn);
                    let nsv = node_size(iv.t, iv.keysize);
                    assert(ns as int == nsv);
                    assert(bytes@.len() == 14 + iv.nodes.len() * nsv);
                    assert(body as int == iv.nodes.len() * nsv);
                    assert(iv.nodes.len() * nsv == nsv * iv.nodes.len()) by (nonlinear_arith);
                    vstd::arithmetic::div_mod::lemma_div_multiples_vanish(
                        iv.nodes.len() as int,
                        nsv,
                    );
                    assert(num64 as int == iv.nodes.len());
                }
            }
            return Err(StoreError::Corrupt);
        }
        if roff < 14 {
            proof {
                assert forall|iv: IndexV|
                    arena_shaped(iv) && iv.file_fits() && bytes@ == #[trigger] index_bytes(
                        iv,
                    ) implies false by {
                    lemma_canonical_index_facts(bytes@, iv);
                    assert(roff as int == node_off(iv.root, iv.t, iv.keysize));
                    assert(iv.root * node_size(iv.t, iv.keysize) >= 0) by (nonlinear_arith)
                        requires
                            iv.root >= 0,
                            node_size(iv.t, iv.keysize) >= 1,
                    ;
                }
            }
            return Err(StoreError::Corrupt);
        }
        let rb = roff - 14;
        if rb % ns != 0 {
            proof {
                assert forall|iv: IndexV|
                    arena_shaped(iv) && iv.file_fits() && bytes@ == #[trigger] index_bytes(
                        iv,
                    ) implies false by {
                    lemma_canonical_index_facts(bytes@, iv);
                    assert(iv.t == tn);
                    assert(iv.keysize == kn);
                    let nsv = node_size(iv.t, iv.keysize);
                    assert(ns as int == nsv);
                    assert(bytes@.len() == 14 + iv.nodes.len() * nsv);
                    assert(body as int == iv.nodes.len() * nsv);
                    assert(rb as int == iv.root * nsv);
                    vstd::arithmetic::div_mod::lemma_mod_multiples_basic(iv.root, nsv);
                }
            }
            return Err(StoreError::Corrupt);
        }
        let root64 = rb / ns;
        if root64 >= num64 {
            proof {
                assert forall|iv: IndexV|
                    arena_shaped(iv) && iv.file_fits() && bytes@ == #[trigger] index_bytes(
                        iv,
                    ) implies false by {
                    lemma_canonical_index_facts(bytes@, iv);
                    assert(iv.t == tn);
                    assert(iv.keysize == kn);
                    let nsv = node_size(iv.t, iv.keysize);
                    assert(ns as int == nsv);
                    assert(bytes@.len() == 14 + iv.nodes.len() * nsv);
                    assert(body as int == iv.nodes.len() * nsv);
                    assert(rb as int == iv.root * nsv);
                    assert(iv.root * nsv == nsv * iv.root) by (nonlinear_arith);
                    assert(iv.nodes.len() * nsv == nsv * iv.nodes.len()) by (nonlinear_arith);
                    vstd::arithmetic::div_mod::lemma_div_multiples_vanish(iv.root, nsv);
                    vstd::arithmetic::div_mod::lemma_div_multiples_vanish(
                        iv.nodes.len() as int,
                        nsv,
                    );
                    assert(root64 as int == iv.root);
                    assert(num64 as int == iv.nodes.len());
                }
            }
            return Err(StoreError::Corrupt);
        }
        proof {
            vstd::arithmetic::div_mod::lemma_fundamental_div_mod(body as int, ns as int);
            vstd::arithmetic::div_mod::lemma_fundamental_div_mod(rb as int, ns as int);
            assert(body as int == (num64 as int) * (ns as int)) by (nonlinear_arith)
                requires
                    body as int == (ns as int) * (body as int / ns as int) + body as int
                        % ns as int,
                    body as int % ns as int == 0,
                    num64 as int == body as int / ns as int,
            ;
            assert(rb as int == (root64 as int) * (ns as int)) by (nonlinear_arith)
                requires
                    rb as int == (ns as int) * (rb as int / ns as int) + rb as int % ns as int,
                    rb as int % ns as int == 0,
                    root64 as int == rb as int / ns as int,
            ;
            assert(num64 <= body);
            assert(root64 < num64);
            assert((2 * tn - 1) * (kn + 8) >= 0) by (nonlinear_arith)
                requires
                    tn >= 1,
            ;
            assert(2 * tn * 8 >= 32) by (nonlinear_arith)
                requires
                    tn >= 2,
            ;
            assert(ns >= 2);
            assert(num64 <= 0x7FFF_FFFF_FFFF_FFFF) by (nonlinear_arith)
                requires
                    body as int == (num64 as int) * (ns as int),
                    ns as int >= 2,
                    body <= 0xFFFF_FFFF_FFFF_FFFF,
                    num64 >= 0,
            ;
        }
        let num = num64 as usize;
        let root = root64 as usize;
        let mut nodes: Vec<Node> = Vec::new();
        let mut pos: usize = 14;
        let mut i: usize = 0;
        proof {
            assert(0 * (ns as int) == 0) by (nonlinear_arith);
        }
        while i < num
            invariant
                i <= num,
                num == num64,
                num64 <= 0x7FFF_FFFF_FFFF_FFFF,
                2 <= t <= 0x4000_0000,
                tn == t as nat,
                kn == keysize as nat,
                tn == le_val(bytes@.subrange(0, 4)),
                kn == le_val(bytes@.subrange(12, 14)),
                ns as int == node_size(tn, kn),
                1 <= ns,
                pos == 14 + i * (ns as int),
                14 + (num64 as int) * (ns as int) == blen,
                blen == bytes@.len(),
                nodes@.len() == i,
                forall|q: int|
                    0 <= q < i ==> node_shaped(
                        (#[trigger] nodes@[q])@,
                        tn,
                        kn,
                        num64 as int,
                    ),
                arena_bytes(
                    Seq::new(nodes@.len(), |q: int| nodes@[q]@),
                    i as int,
                    tn,
                    kn,
                ) == bytes@.subrange(14, pos as int),
            decreases num - i,
        {
            proof {
                assert((i + 1) * (ns as int) == i * (ns as int) + ns) by (nonlinear_arith);
                assert((i + 1) * (ns as int) <= (num64 as int) * (ns as int)) by (nonlinear_arith)
                    requires
                        i + 1 <= num64 as int,
                        ns as int >= 1,
                ;
            }
            proof {
                assert(node_off(num64 as int, tn, kn) == blen);
            }
            let node = match parse_node(bytes, pos, t, keysize, ns, num64) {
                Ok(nd) => nd,
                Err(e) => {
                    proof {
                        assert forall|iv: IndexV|
                            arena_shaped(iv) && iv.file_fits() && bytes@ == #[trigger] index_bytes(
                                iv,
                            ) implies false by {
                            lemma_canonical_index_facts(bytes@, iv);
                            assert(iv.t == tn);
                            assert(iv.keysize == kn);
                            let nsv = node_size(iv.t, iv.keysize);
                            assert(ns as int == nsv);
                            assert(iv.nodes.len() * nsv == (num64 as int) * nsv);
                            assert(iv.nodes.len() == num64 as int) by (nonlinear_arith)
                                requires
                                    iv.nodes.len() * nsv == (num64 as int) * nsv,
                                    nsv >= 1,
                            ;
                            assert(node_bytes(iv.nodes[i as int], tn, kn) == bytes@.subrange(
                                pos as int,
                                pos as int + ns as int,
                            ));
                            assert(node_shaped(iv.nodes[i as int], tn, kn, num64 as int));
                        }
                    }
                    return Err(e);
                },
            };
            let ghost prev_view = Seq::new(nodes@.len(), |q: int| nodes@[q]@);
            nodes.push(node);
            proof {
                let now_view = Seq::new(nodes@.len(), |q: int| nodes@[q]@);
                assert(now_view[i as int] == node@);
                assert forall|q: int| 0 <= q < i implies now_view[q] == prev_view[q] by {}
                lemma_arena_eq(prev_view, now_view, i as int, tn, kn);
                assert(arena_bytes(now_view, i as int + 1, tn, kn) == arena_bytes(
                    now_view,
                    i as int,
                    tn,
                    kn,
                ) + node_bytes(node@, tn, kn));
                assert(arena_bytes(now_view, i as int + 1, tn, kn) =~= bytes@.subrange(
                    14,
                    pos + ns as int,
                ));
            }
            pos = pos + ns as usize;
            i = i + 1;
        }
        let idx = Index { t, keysize, root, nodes };
        proof {
            let iv = idx@;
            assert(iv.t == tn && iv.keysize == kn && iv.root == root64 as int);
            assert(iv.nodes =~= Seq::new(idx.nodes@.len(), |q: int| idx.nodes@[q]@));
            assert(iv.nodes.len() == num64 as int);
            lemma_le_bytes_of_val(bytes@.subrange(0, 4));
            lemma_le_bytes_of_val(bytes@.subrange(4, 12));
            lemma_le_bytes_of_val(bytes@.subrange(12, 14));
            lemma_le_val_bound(bytes@.subrange(4, 12));
            lemma_pow256_8();
            assert(node_off(iv.root, tn, kn) == roff as int);
            assert(le_bytes(iv.t, 4) == bytes@.subrange(0, 4));
            assert(le_bytes(node_off(iv.root, iv.t, iv.keysize) as nat, 8) == bytes@.subrange(
                4,
                12,
            ));
            assert(le_bytes(iv.keysize, 2) == bytes@.subrange(12, 14));
            assert(arena_bytes(iv.nodes, iv.nodes.len() as int, tn, kn) == bytes@.subrange(
                14,
                blen as int,
            ));
            assert(index_bytes(iv) =~= bytes@);
            assert(iv.file_size() == blen as int);
            assert forall|q: int| 0 <= q < iv.nodes.len() implies node_shaped(
                #[trigger] iv.nodes[q],
                tn,
                kn,
                iv.nodes.len() as int,
            ) by {
                assert(iv.nodes[q] == idx.nodes@[q]@);
            }
            assert(arena_shaped(iv));
            assert forall|iv2: IndexV|
                arena_shaped(iv2) && iv2.file_fits() && bytes@ == #[trigger] index_bytes(
                    iv2,
                ) implies iv == iv2 by {
                lemma_image_identifies(iv2, iv);
            }
        }
        Ok(idx)
    }

    /// Whether the arena is still small enough for `insert` to accept.
    pub fn has_room(&self) -> (b: bool)
        ensures
            b <==> self@.nodes.len() <= NODE_CAP,
    {
        self.nodes.len() as u64 <= NODE_CAP
    }

    /// Insert `(padded key, value)` into the tree, splitting full nodes on
    /// the way down; equal keys land to the right of the ones already there.
    /// The one failure, `TooLarge`, reports an index grown past what the
    /// on-disk child slots can address, where the file-backed form would
    /// fail with an I/O error; the tree is then left unchanged.
    pub fn insert(&mut self, key: Vec<u8>, value: u64) -> (r: Result<(), StoreError>)
        requires
            old(self).wf(),
            key@.len() <= old(self)@.keysize,
        ensures
            final(self).wf(),
            final(self)@.t == old(self)@.t,
            final(self)@.keysize == old(self)@.keysize,
            r is Ok <==> old(self)@.nodes.len() <= NODE_CAP,
            r is Err ==> final(self)@ == old(self)@ && r == Err::<(), StoreError>(
                StoreError::TooLarge,
            ),
            r is Ok ==> final(self).entry_list().to_multiset() == old(self).entry_list()
                .to_multiset().insert((pad_spec(key@, old(self)@.keysize), value)),
            r is Ok ==> final(self)@.load() <= old(self)@.load() + 2,
            r is Ok ==> final(self)@.nodes.len() >= old(self)@.nodes.len(),
            r is Ok ==> (forall|j: int|
                0 <= j < old(self)@.nodes.len() && !reach(
                    old(self)@.nodes,
                    old(self)@.root,
                    old(self)@.fuel(),
                ).contains(j) ==> final(self)@.nodes[j] == old(self)@.nodes[j]),
            r is Ok && old(self)@.nodes[old(self)@.root].keys.len() == 2 * old(self)@.t - 1 ==> {
                &&& final(self)@.root == old(self)@.nodes.len()
                &&& final(self)@.nodes.len() >= old(self)@.nodes.len() + 2
                &&& final(self)@.nodes[final(self)@.root].keys.len() == 1
                &&& final(self)@.nodes[final(self)@.root].keys[0] == old(self)@.nodes[old(
                    self,
                )@.root].keys[old(self)@.t - 1]
                &&& final(self)@.nodes[final(self)@.root].values[0] == old(self)@.nodes[old(
                    self,
                )@.root].values[old(self)@.t - 1]
                &&& final(self)@.nodes[final(self)@.root].children[0] == old(self)@.root as i64
                &&& final(self)@.nodes[final(self)@.root].children[1] == (old(self)@.nodes.len()
                    + 1) as i64
            },
            r is Ok && old(self)@.nodes[old(self)@.root].keys.len() < 2 * old(self)@.t - 1
                ==> final(self)@.root == old(self)@.root,
    {
        let ghost t_s = self@.t;
        let ghost k_s = self@.keysize;
        let ghost nodes0 = self@.nodes;
        let ghost len0 = nodes0.len() as int;
        let ghost f0 = self@.fuel();
        if self.nodes.len() as u64 > NODE_CAP {
            return Err(StoreError::TooLarge);
        }
        let pk = pad_bytes(&key, self.keysize as usize);
        let ghost pkv = pk@;
        let rootidx = self.root;
        let t = self.t as usize;
        let full = self.nodes[rootidx].keys.len() == 2 * t - 1;
        if full {
            let mut children = neg_ones(2 * t);
            proof {
                assert((rootidx as int) < NODE_CAP as int);
            }
            children.set(0, rootidx as i64);
            let new_root = Node { keys: Vec::new(), values: Vec::new(), children };
            let nridx = self.nodes.len();
            let placeholder = copy_node(&new_root);
            self.nodes.push(placeholder);
            let ghost nodes_wp = self@.nodes;
            let ghost nrv0 = new_root@;
            let mut new_root = new_root;
            proof {
                // the old root's subtree is untouched by the append
                lemma_reach_valid(nodes0, rootidx as int, t_s, k_s, f0);
                assert forall|x: int|
                    reach(nodes0, rootidx as int, f0).contains(x) implies nodes_wp[x]
                    == nodes0[x] by {
                    assert(0 <= x < len0);
                }
                lemma_tree_frame(nodes0, nodes_wp, rootidx as int, t_s, k_s, f0);
                // the placeholder is a sound internal node
                assert(nrv0.keys.len() == 0);
                assert(nrv0.children.len() == 2 * t_s);
                assert(nrv0.children[0] == rootidx as i64);
                assert(!is_leaf(nrv0));
                assert(child_ok(nrv0.children[0], nodes_wp.len() as int));
                assert(node_wf(nrv0, t_s, k_s, nodes_wp.len() as int));
                assert forall|j: int| 0 <= j < nodes_wp.len() implies node_wf(
                    #[trigger] nodes_wp[j],
                    t_s,
                    k_s,
                    nodes_wp.len() as int,
                ) by {
                    if j < len0 {
                        assert(node_wf(nodes0[j], t_s, k_s, len0));
                        let nv = nodes0[j];
                        if !is_leaf(nv) {
                            assert forall|s: int| 0 <= s <= nv.keys.len() implies child_ok(
                                #[trigger] nv.children[s],
                                nodes_wp.len() as int,
                            ) by {
                                assert(child_ok(nv.children[s], len0));
                            }
                        }
                    }
                }
            }
            self.split_child(&mut new_root, 0, rootidx, Ghost(f0));
            let ghost nodes2 = self@.nodes;
            let ghost nrv = new_root@;
            let ghost yv = nodes_wp[rootidx as int];
            let ghost promk = yv.keys[t_s - 1];
            let ghost promv = yv.values[t_s - 1];
            let new_root_final = new_root;
            self.nodes.set(nridx, new_root_final);
            self.root = nridx;
            let ghost nodes3 = self@.nodes;
            proof {
                let zpos = len0 + 1;
                assert(nodes2.len() == len0 + 2);
                assert(nodes3 =~= nodes2.update(nridx as int, nrv));
                assert(nrv.keys.len() == 1);
                assert(nrv.keys[0] == promk && nrv.values[0] == promv);
                assert(nrv.children[0] == rootidx as i64);
                assert(nrv.children[1] == zpos as i64);
                assert forall|s: int| 1 < s < 2 * t_s implies nrv.children[s] == -1i64 by {
                    assert(nrv.children[s] == nrv0.children[s - 1]);
                }
                assert(!is_leaf(nrv));
                // frame the two halves over the root rewrite
                lemma_reach_valid(nodes_wp, rootidx as int, t_s, k_s, f0);
                assert forall|x: int|
                    reach(nodes2, rootidx as int, f0).contains(x) implies nodes3[x]
                    == nodes2[x] by {
                    assert(reach(nodes_wp, rootidx as int, f0).contains(x));
                    assert(0 <= x < len0);
                }
                lemma_tree_frame(nodes2, nodes3, rootidx as int, t_s, k_s, f0);
                assert forall|x: int|
                    reach(nodes2, zpos, f0).contains(x) implies nodes3[x] == nodes2[x] by {
                    if x != zpos {
                        assert(reach(nodes_wp, rootidx as int, f0).contains(x));
                        assert(0 <= x < len0);
                    }
                }
                lemma_tree_frame(nodes2, nodes3, zpos, t_s, k_s, f0);
                // the new root is a sound internal node over the two halves
                assert(node_wf(nrv, t_s, k_s, nodes3.len() as int));
                assert(tree_ok(nodes3, rootidx as int, t_s, k_s, f0));
                assert(tree_ok(nodes3, zpos, t_s, k_s, f0));
                lemma_kids_ok_build(nodes3, nrv.children, 2, t_s, k_s, f0);
                assert forall|j: int| 0 <= j < 1 implies all_keys_le(
                    #[trigger] child_entries(nodes3, nridx as int, j, f0),
                    nrv.keys[j],
                ) by {
                    assert(child_entries(nodes3, nridx as int, 0, f0) == entries(
                        nodes2,
                        rootidx as int,
                        f0,
                    ));
                }
                assert forall|j: int| 1 <= j <= 1 implies all_keys_ge(
                    #[trigger] child_entries(nodes3, nridx as int, j, f0),
                    nrv.keys[j - 1],
                ) by {
                    assert(child_entries(nodes3, nridx as int, 1, f0) == entries(
                        nodes2,
                        zpos,
                        f0,
                    ));
                }
                assert forall|j: int| 0 <= j <= 1 implies !(#[trigger] child_reach(
                    nodes3,
                    nridx as int,
                    j,
                    f0,
                )).contains(nridx as int) by {
                    if j == 0 {
                        if reach(nodes2, rootidx as int, f0).contains(nridx as int) {
                            assert(reach(nodes_wp, rootidx as int, f0).contains(nridx as int));
                        }
                    } else {
                        if reach(nodes2, zpos, f0).contains(nridx as int) {
                            assert(reach(nodes_wp, rootidx as int, f0).contains(nridx as int)
                                || nridx as int == zpos);
                        }
                    }
                }
                assert forall|j1: int, j2: int| 0 <= j1 < j2 <= 1 implies (#[trigger] child_reach(
                    nodes3,
                    nridx as int,
                    j1,
                    f0,
                )).disjoint(#[trigger] child_reach(nodes3, nridx as int, j2, f0)) by {
                    assert(child_reach(nodes3, nridx as int, 0, f0) == reach(
                        nodes2,
                        rootidx as int,
                        f0,
                    ));
                    assert(child_reach(nodes3, nridx as int, 1, f0) == reach(nodes2, zpos, f0));
                }
                assert(tree_ok(nodes3, nridx as int, t_s, k_s, (f0 + 1) as nat));
                // its entries are the old root's entries
                assert(ent_upto(nodes3, nrv, 0, f0) == entries(nodes3, rootidx as int, f0));
                assert(entries(nodes3, nridx as int, (f0 + 1) as nat) == ent_upto(
                    nodes3,
                    nrv,
                    1,
                    f0,
                ));
                assert(entries(nodes3, nridx as int, (f0 + 1) as nat) == entries(
                    nodes3,
                    rootidx as int,
                    f0,
                ) + seq![(promk, promv)] + entries(nodes3, zpos, f0));
                assert(entries(nodes3, nridx as int, (f0 + 1) as nat) == entries(
                    nodes_wp,
                    rootidx as int,
                    f0,
                ));
                assert(entries(nodes_wp, rootidx as int, f0) == entries(
                    nodes0,
                    rootidx as int,
                    f0,
                ));
                // the whole arena is still structurally sound
                assert forall|j: int| 0 <= j < nodes3.len() implies node_wf(
                    #[trigger] nodes3[j],
                    t_s,
                    k_s,
                    nodes3.len() as int,
                ) by {
                    if j != nridx as int {
                        assert(node_wf(nodes2[j], t_s, k_s, nodes2.len() as int));
                    }
                }
                assert(nodes3.len() + (f0 + 1) <= 0x4000_0000_0000_0000);
                assert(nodes3[nridx as int].keys.len() < 2 * t_s - 1);
            }
            self.insert_non_full(nridx, pk, value, Ghost((f0 + 1) as nat));
            proof {
                let nodes4 = self@.nodes;
                let ffin = self@.fuel();
                assert(entries(nodes4, nridx as int, (f0 + 1) as nat).to_multiset() == entries(
                    nodes0,
                    rootidx as int,
                    f0,
                ).to_multiset().insert((pkv, value)));
                assert(f0 + 1 <= ffin) by {
                    assert(nodes4.len() >= len0 + 2);
                }
                lemma_tree_fuel(nodes4, nridx as int, t_s, k_s, (f0 + 1) as nat, ffin);
                assert(self@.wf());
                // budget: the append, the split, the root rewrite, the descent
                assert(nodes_wp =~= nodes0.push(nrv0));
                lemma_excess_push(nodes0, nrv0, t_s);
                assert(node_excess(nrv0, t_s) == 0);
                lemma_excess_update(nodes2, nridx as int, nrv, t_s);
                assert(nodes3 =~= nodes2.update(nridx as int, nrv));
                assert(nodes2[nridx as int] == nrv0);
                assert(node_excess(nrv, t_s) == 0);
                assert(nodes4.len() + arena_excess(nodes4, t_s) <= len0 + arena_excess(
                    nodes0,
                    t_s,
                ) + 2);
                // frame: everything outside the old root's subtree is kept
                assert forall|j: int|
                    0 <= j < len0 && !reach(nodes0, rootidx as int, f0).contains(j) implies nodes4[j]
                    == nodes0[j] by {
                    lemma_reach_self(nodes0, rootidx as int, f0);
                    assert(j != rootidx);
                    assert(nodes_wp[j] == nodes0[j]);
                    assert(nodes2[j] == nodes_wp[j]);
                    assert(nodes3[j] == nodes2[j]);
                    assert(!reach(nodes3, nridx as int, (f0 + 1) as nat).contains(j)) by {
                        if reach(nodes3, nridx as int, (f0 + 1) as nat).contains(j) {
                            assert(j != nridx);
                            assert(kids_reach(nodes3, nrv.children, 2, f0).contains(j));
                            lemma_kids_reach_elem(nodes3, nrv.children, 2, f0, j);
                            let s = choose|s: int|
                                0 <= s < 2 && reach(
                                    nodes3,
                                    (#[trigger] nrv.children[s]) as int,
                                    f0,
                                ).contains(j);
                            if s == 0 {
                                assert(reach(nodes3, rootidx as int, f0) == reach(
                                    nodes2,
                                    rootidx as int,
                                    f0,
                                ));
                                assert(reach(nodes_wp, rootidx as int, f0).contains(j));
                                assert(reach(nodes0, rootidx as int, f0).contains(j));
                            } else {
                                assert(nrv.children[1] as int == len0 + 1);
                                assert(reach(nodes3, len0 + 1, f0) == reach(nodes2, len0 + 1, f0));
                                assert(reach(nodes_wp, rootidx as int, f0).contains(j) || j == len0
                                    + 1);
                                assert(reach(nodes0, rootidx as int, f0).contains(j));
                            }
                        }
                    }
                    assert(nodes4[j] == nodes3[j]);
                }
                // the descent cannot split a fresh half, so the new root as
                // written is the new root that remains
                assert forall|j: int|
                    0 <= j <= nrv.keys.len() implies nodes3[(#[trigger] nrv.children[j]) as int]
                    .keys.len() < 2 * t_s - 1 by {
                    if j == 0 {
                        assert(nodes3[rootidx as int] == nodes2[rootidx as int]);
                    } else {
                        assert(nrv.children[1] as int == len0 + 1);
                        assert(nodes3[len0 + 1] == nodes2[len0 + 1]);
                    }
                }
                assert(nodes4[nridx as int] == nrv);
                assert(nodes4[nridx as int].keys.len() == 1);
                assert(nodes4[nridx as int].keys[0] == promk);
                assert(nodes4[nridx as int].values[0] == promv);
                assert(nodes4[nridx as int].children[0] == rootidx as i64);
                assert(nodes4[nridx as int].children[1] == (len0 + 1) as i64);
            }
            Ok(())
        } else {
            proof {
                assert(nodes0[rootidx as int].keys.len() < 2 * t_s - 1) by {
                    assert(node_wf(nodes0[rootidx as int], t_s, k_s, len0));
                }
            }
            self.insert_non_full(rootidx, pk, value, Ghost(f0));
            proof {
                let nodes4 = self@.nodes;
                let ffin = self@.fuel();
                assert(f0 <= ffin);
                lemma_tree_fuel(nodes4, rootidx as int, t_s, k_s, f0, ffin);
                assert(self@.wf());
                assert(nodes4.len() + arena_excess(nodes4, t_s) <= len0 + arena_excess(
                    nodes0,
                    t_s,
                ) + 1);
            }
            Ok(())
        }
    }

    /// Walk the whole tree in order and collect every `(key, offset)` entry;
    /// the result is the tree's entry sequence, sorted by key.
    pub fn traverse_inorder(&self) -> (r: Vec<(Vec<u8>, u64)>)
        requires
            self.wf(),
        ensures
            rec_matches(r@, self.entry_list()),
            sorted_entries(self.entry_list()),
    {
        proof {
            lemma_entries_sorted(self@.nodes, self@.root, self@.t, self@.keysize, self@.fuel());
        }
        let mut out: Vec<(Vec<u8>, u64)> = Vec::new();
        self.traverse_rec(self.root, &mut out, Ghost(self@.fuel()));
        proof {
            assert(out@.skip(0) =~= out@);
        }
        out
    }

    /// Walk the subtree whose node starts at byte offset `offset` of the
    /// index file, in order.  `traverse_inorder` walks from the root.
    pub fn traverse_inorder_from(&self, offset: u64) -> (r: Vec<(Vec<u8>, u64)>)
        requires
            self.wf(),
            offset >= 14,
            (offset as int - 14) % node_size(self@.t, self@.keysize) == 0,
            tree_ok(
                self@.nodes,
                (offset as int - 14) / node_size(self@.t, self@.keysize),
                self@.t,
                self@.keysize,
                self@.fuel(),
            ),
        ensures
            rec_matches(
                r@,
                entries(
                    self@.nodes,
                    (offset as int - 14) / node_size(self@.t, self@.keysize),
                    self@.fuel(),
                ),
            ),
    {
        let ns = node_size_u64(self.t, self.keysize);
        let idx64 = (offset - 14) / ns;
        let num = self.nodes.len();
        proof {
            assert(idx64 as int == (offset as int - 14) / node_size(self@.t, self@.keysize));
            assert(0 <= idx64 as int && (idx64 as int) < self@.nodes.len());
            assert(num as int == self@.nodes.len() as int);
        }
        let idx = idx64 as usize;
        let mut out: Vec<(Vec<u8>, u64)> = Vec::new();
        self.traverse_rec(idx, &mut out, Ghost(self@.fuel()));
        proof {
            assert(out@.skip(0) =~= out@);
        }
        out
    }

    /// Recursive in-order walk from arena position `idx`, appending to `out`.
    fn traverse_rec(&self, idx: usize, out: &mut Vec<(Vec<u8>, u64)>, Ghost(f): Ghost<nat>)
        requires
            tree_ok(self@.nodes, idx as int, self@.t, self@.keysize, f),
        ensures
            final(out)@.len() == old(out)@.len() + entries(self@.nodes, idx as int, f).len(),
            final(out)@.subrange(0, old(out)@.len() as int) == old(out)@,
            rec_matches(
                final(out)@.skip(old(out)@.len() as int),
                entries(self@.nodes, idx as int, f),
            ),
        decreases f,
    {
        let ghost nodes = self@.nodes;
        let ghost nv = nodes[idx as int];
        let ghost fc = (f - 1) as nat;
        let ghost base = out@.len() as int;
        let num = self.nodes.len();
        let node = &self.nodes[idx];
        let n = node.keys.len();
        proof {
            assert(num as int == nodes.len() as int);
            assert(node@ == nv);
            assert(forall|i: int|
                0 <= i < node.keys@.len() ==> #[trigger] node.keys@[i]@ == nv.keys[i]);
            assert(node.children@ == nv.children);
            assert(node.values@ == nv.values);
        }
        if node.children[0] == -1 {
            let mut i: usize = 0;
            while i < n
                invariant
                    i <= n,
                    n == nv.keys.len(),
                    node@ == nv,
                    is_leaf(nv),
                    node_wf(nv, self@.t, self@.keysize, nodes.len() as int),
                    forall|j: int|
                        0 <= j < node.keys@.len() ==> #[trigger] node.keys@[j]@ == nv.keys[j],
                    node.values@ == nv.values,
                    out@.len() == base + i,
                    out@.subrange(0, base) =~= old(out)@,
                    base == old(out)@.len(),
                    rec_matches(out@.skip(base), pairs(nv).take(i as int)),
                decreases n - i,
            {
                let kcopy = copy_bytes(&node.keys[i]);
                let v = node.values[i];
                let ghost prev = out@;
                out.push((kcopy, v));
                proof {
                    assert(out@.subrange(0, base) =~= prev.subrange(0, base));
                    assert(out@.skip(base) =~= prev.skip(base).push((kcopy, v)));
                    assert(pairs(nv).take(i + 1) =~= pairs(nv).take(i as int).push(
                        (nv.keys[i as int], nv.values[i as int]),
                    ));
                }
                i = i + 1;
            }
            proof {
                assert(entries(nodes, idx as int, f) == pairs(nv));
                assert(pairs(nv).take(n as int) =~= pairs(nv));
            }
        } else {
            let mut i: usize = 0;
            while i < n
                invariant
                    i <= n,
                    n == nv.keys.len(),
                    node@ == nv,
                    !is_leaf(nv),
                    nodes == self@.nodes,
                    nv == nodes[idx as int],
                    idx < nodes.len(),
                    fc == (f - 1) as nat,
                    tree_ok(nodes, idx as int, self@.t, self@.keysize, f),
                    forall|j: int|
                        0 <= j < node.keys@.len() ==> #[trigger] node.keys@[j]@ == nv.keys[j],
                    node.children@ == nv.children,
                    node.values@ == nv.values,
                    num as int == nodes.len() as int,
                    out@.len() == base + upto_pairs(nodes, nv, i as int, fc).len(),
                    out@.subrange(0, base) =~= old(out)@,
                    base == old(out)@.len(),
                    rec_matches(out@.skip(base), upto_pairs(nodes, nv, i as int, fc)),
                decreases n - i,
            {
                proof {
                    lemma_kids_ok_index(
                        nodes,
                        nv.children,
                        nv.keys.len() as int + 1,
                        self@.t,
                        self@.keysize,
                        fc,
                        i as int,
                    );
                    assert(child_ok(nv.children[i as int], nodes.len() as int));
                }
                let c = node.children[i];
                let ghost prev = out@;
                self.traverse_rec(c as usize, out, Ghost(fc));
                proof {
                    assert(out@.subrange(0, base) =~= prev.subrange(0, base));
                    assert(out@.skip(base) =~= prev.skip(base) + out@.skip(prev.len() as int));
                    lemma_matches_concat(
                        prev.skip(base),
                        out@.skip(prev.len() as int),
                        upto_pairs(nodes, nv, i as int, fc),
                        entries(nodes, nv.children[i as int] as int, fc),
                    );
                }
                let kcopy = copy_bytes(&node.keys[i]);
                let v = node.values[i];
                let ghost mid = out@;
                out.push((kcopy, v));
                proof {
                    assert(out@.subrange(0, base) =~= mid.subrange(0, base));
                    assert(out@.skip(base) =~= mid.skip(base).push((kcopy, v)));
                    assert(upto_pairs(nodes, nv, i + 1, fc) =~= (upto_pairs(nodes, nv, i as int, fc)
                        + entries(nodes, nv.children[i as int] as int, fc)).push(
                        (nv.keys[i as int], nv.values[i as int]),
                    ));
                    assert(rec_matches(out@.skip(base), upto_pairs(nodes, nv, i + 1, fc)));
                }
                i = i + 1;
            }
            proof {
                lemma_kids_ok_index(
                    nodes,
                    nv.children,
                    nv.keys.len() as int + 1,
                    self@.t,
                    self@.keysize,
                    fc,
                    n as int,
                );
                assert(child_ok(nv.children[n as int], nodes.len() as int));
            }
            let c = node.children[n];
            let ghost prev = out@;
            self.traverse_rec(c as usize, out, Ghost(fc));
            proof {
                assert(out@.subrange(0, base) =~= prev.subrange(0, base));
                assert(out@.skip(base) =~= prev.skip(base) + out@.skip(prev.len() as int));
                lemma_matches_concat(
                    prev.skip(base),
                    out@.skip(prev.len() as int),
                    upto_pairs(nodes, nv, n as int, fc),
                    entries(nodes, nv.children[n as int] as int, fc),
                );
                assert(entries(nodes, idx as int, f) == ent_upto(nodes, nv, n as int, fc));
                if n == 0 {
                    assert(upto_pairs(nodes, nv, 0, fc) + entries(
                        nodes,
                        nv.children[0] as int,
                        fc,
                    ) =~= ent_upto(nodes, nv, 0, fc));
                } else {
                    assert(upto_pairs(nodes, nv, n as int, fc) + entries(
                        nodes,
                        nv.children[n as int] as int,
                        fc,
                    ) =~= ent_upto(nodes, nv, n as int, fc));
                }
            }
        }
    }

    /// Look up the padded form of `key`; `Some(v)` is returned exactly when
    /// the tree holds an entry with that key, and `v` is then one such
    /// entry's heap-file offset.
    pub fn search(&self, key: &Vec<u8>) -> (r: Option<u64>)
        requires
            self.wf(),
        ensures
            match r {
                Some(v) => self.entry_list().contains((pad_spec(key@, self@.keysize), v)),
                None => !has_key(self.entry_list(), pad_spec(key@, self@.keysize)),
            },
            r == search_spec(
                self@.nodes,
                self@.root,
                pad_spec(key@, self@.keysize),
                self@.fuel(),
            ),
    {
        let pk = pad_bytes(key, self.keysize as usize);
        self.search_at(self.root, &pk, Ghost(self@.fuel()))
    }

    /// Recursive descent of `search`, from the node at arena position `idx`.
    fn search_at(&self, idx: usize, pk: &Vec<u8>, Ghost(f): Ghost<nat>) -> (r: Option<u64>)
        requires
            tree_ok(self@.nodes, idx as int, self@.t, self@.keysize, f),
        ensures
            match r {
                Some(v) => entries(self@.nodes, idx as int, f).contains((pk@, v)),
                None => !has_key(entries(self@.nodes, idx as int, f), pk@),
            },
            r == search_spec(self@.nodes, idx as int, pk@, f),
        decreases f,
    {
        let ghost nodes = self@.nodes;
        let ghost nv = nodes[idx as int];
        let num = self.nodes.len();
        let node = &self.nodes[idx];
        let n = node.keys.len();
        proof {
            assert(num as int == nodes.len() as int);
            assert(node@ == nv);
            assert(forall|i: int|
                0 <= i < node.keys@.len() ==> #[trigger] node.keys@[i]@ == nv.keys[i]);
            assert(node.children@ == nv.children);
            assert(node.values@ == nv.values);
        }
        let low = lower_bound(&node.keys, pk);
        proof {
            assert forall|j: int| 0 <= j < low implies lex_lt(#[trigger] nv.keys[j], pk@) by {
                assert(!lex_le(pk@, node.keys@[j]@));
            }
            assert forall|j: int| low <= j < n implies !lex_lt(#[trigger] nv.keys[j], pk@) by {
                assert(lex_le(pk@, node.keys@[j]@));
            }
            lemma_count_lt_split(nv.keys, pk@, low as int);
        }
        if low < n && bytes_eq(&node.keys[low], pk) {
            let v = node.values[low];
            proof {
                let x = (nv.keys[low as int], nv.values[low as int]);
                assert(x.0 == pk@);
                if is_leaf(nv) {
                    assert(pairs(nv)[low as int] == x);
                    assert(entries(nodes, idx as int, f).contains(x));
                } else {
                    lemma_ent_upto_contains_pair(
                        nodes,
                        nv,
                        nv.keys.len() as int,
                        (f - 1) as nat,
                        low as int,
                    );
                }
            }
            return Some(v);
        }
        // No exact match in this node: every key of the node differs from pk.
        proof {
            assert forall|j: int| 0 <= j < n implies nv.keys[j] != pk@ by {
                if j < low {
                    if nv.keys[j] == pk@ {
                        assert(lex_le(pk@, nv.keys[j])) by {
                            lemma_lex_le_refl(pk@);
                        }
                    }
                } else {
                    if nv.keys[j] == pk@ {
                        if j == low {
                            assert(low < n);
                            assert(nv.keys[low as int] == pk@);
                        } else {
                            // keys[low] <= keys[j] == pk and pk <= keys[low]
                            assert(lex_le(nv.keys[low as int], nv.keys[j]));
                            assert(lex_le(pk@, nv.keys[low as int]));
                            lemma_lex_le_antisym(pk@, nv.keys[low as int]);
                        }
                    }
                }
            }
        }
        if node.children[0] == -1 {
            proof {
                assert(is_leaf(nv));
                if has_key(entries(nodes, idx as int, f), pk@) {
                    let e = choose|e: int|
                        0 <= e < pairs(nv).len() && (#[trigger] pairs(nv)[e]).0 == pk@;
                    assert(nv.keys[e] == pk@);
                }
            }
            return None;
        }
        proof {
            assert(!is_leaf(nv));
            lemma_kids_ok_index(
                nodes,
                nv.children,
                nv.keys.len() as int + 1,
                self@.t,
                self@.keysize,
                (f - 1) as nat,
                low as int,
            );
        }
        let c = node.children[low];
        proof {
            assert(child_ok(nv.children[low as int], nodes.len() as int));
            assert(0 <= c && (c as int) < num as int);
            assert((c as usize) as int == c as int);
            assert(c as int == nv.children[low as int] as int);
            assert(tree_ok(nodes, (c as usize) as int, self@.t, self@.keysize, (f - 1) as nat));
        }
        let r = self.search_at(c as usize, pk, Ghost((f - 1) as nat));
        proof {
            let fc = (f - 1) as nat;
            match r {
                Some(v) => {
                    lemma_ent_upto_contains_child(
                        nodes,
                        nv,
                        nv.keys.len() as int,
                        fc,
                        low as int,
                        (pk@, v),
                    );
                }
                None => {
                    if has_key(entries(nodes, idx as int, f), pk@) {
                        let e = choose|e: int|
                            0 <= e < entries(nodes, idx as int, f).len() && (#[trigger] entries(
                                nodes,
                                idx as int,
                                f,
                            )[e]).0 == pk@;
                        let x = entries(nodes, idx as int, f)[e];
                        assert(entries(nodes, idx as int, f).contains(x));
                        lemma_ent_upto_cases(nodes, nv, nv.keys.len() as int, fc, x);
                        if exists|j: int|
                            0 <= j <= nv.keys.len() && entries(
                                nodes,
                                #[trigger] nv.children[j] as int,
                                fc,
                            ).contains(x) {
                            let j = choose|j: int|
                                0 <= j <= nv.keys.len() && entries(
                                    nodes,
                                    #[trigger] nv.children[j] as int,
                                    fc,
                                ).contains(x);
                            if j < low {
                                // entries of child j are <= keys[j] < pk
                                assert(all_keys_le(child_entries(nodes, idx as int, j, fc), nv.keys[j]));
                                let ei = choose|ei: int|
                                    0 <= ei < entries(nodes, nv.children[j] as int, fc).len()
                                        && entries(nodes, nv.children[j] as int, fc)[ei] == x;
                                assert(lex_le(x.0, nv.keys[j]));
                                assert(!lex_le(pk@, nv.keys[j]));
                            } else if j > low {
                                assert(all_keys_ge(
                                    child_entries(nodes, idx as int, j, fc),
                                    nv.keys[j - 1],
                                ));
                                let ei = choose|ei: int|
                                    0 <= ei < entries(nodes, nv.children[j] as int, fc).len()
                                        && entries(nodes, nv.children[j] as int, fc)[ei] == x;
                                assert(lex_le(nv.keys[j - 1], x.0));
                                // keys[j-1] >= keys[low] >= pk, and pk not a node key
                                assert(lex_le(pk@, nv.keys[low as int]));
                                assert(lex_le(nv.keys[low as int], nv.keys[j - 1]));
                                lemma_lex_le_trans(pk@, nv.keys[low as int], nv.keys[j - 1]);
                                lemma_lex_le_antisym(nv.keys[j - 1], pk@);
                            } else {
                                let ei = choose|ei: int|
                                    0 <= ei < entries(nodes, nv.children[j] as int, fc).len()
                                        && entries(nodes, nv.children[j] as int, fc)[ei] == x;
                                assert(has_key(entries(nodes, c as int, fc), pk@));
                            }
                        } else {
                            let j = choose|j: int| 0 <= j < nv.keys.len() && x == (nv.keys[j], nv.values[j]);
                            assert(nv.keys[j] == pk@);
                        }
                    }
                }
            }
        }
        r
    }
}

/// `ent_upto` is determined by the keys, values and child entries it covers:
/// two arenas and parent images agree on it once those agree.
pub proof fn lemma_ent_upto_eq2(
    nodesa: Seq<NodeV>,
    nva: NodeV,
    fa: nat,
    nodesb: Seq<NodeV>,
    nvb: NodeV,
    fb: nat,
    m: int,
)
    requires
        forall|j: int|
            0 <= j <= m ==> entries(nodesa, (#[trigger] nva.children[j]) as int, fa) == entries(
                nodesb,
                nvb.children[j] as int,
                fb,
            ),
        forall|j: int|
            0 <= j < m ==> #[trigger] nva.keys[j] == nvb.keys[j] && nva.values[j] == nvb.values[j],
    ensures
        ent_upto(nodesa, nva, m, fa) == ent_upto(nodesb, nvb, m, fb),
    decreases m,
{
    if m > 0 {
        lemma_ent_upto_eq2(nodesa, nva, fa, nodesb, nvb, fb, m - 1);
    }
}

pub proof fn lemma_kids_reach_eq(
    nodesa: Seq<NodeV>,
    fa: nat,
    nodesb: Seq<NodeV>,
    fb: nat,
    cs: Seq<i64>,
    m: int,
)
    requires
        forall|j: int|
            0 <= j < m ==> reach(nodesa, (#[trigger] cs[j]) as int, fa) == reach(
                nodesb,
                cs[j] as int,
                fb,
            ),
    ensures
        kids_reach(nodesa, cs, m, fa) == kids_reach(nodesb, cs, m, fb),
    decreases m,
{
    if m > 0 {
        lemma_kids_reach_eq(nodesa, fa, nodesb, fb, cs, m - 1);
        assert(kids_reach(nodesa, cs, m, fa) =~= kids_reach(nodesb, cs, m, fb));
    } else {
        assert(kids_reach(nodesa, cs, m, fa) =~= kids_reach(nodesb, cs, m, fb));
    }
}

/// More fuel never changes a well-formed subtree: `tree_ok`, its entries and
/// its reach are stable once the fuel suffices.
pub proof fn lemma_tree_fuel(nodes: Seq<NodeV>, i: int, t: nat, k: nat, f: nat, f2: nat)
    requires
        tree_ok(nodes, i, t, k, f),
        f <= f2,
    ensures
        tree_ok(nodes, i, t, k, f2),
        entries(nodes, i, f2) == entries(nodes, i, f),
        reach(nodes, i, f2) == reach(nodes, i, f),
    decreases f,
{
    let nv = nodes[i];
    let n = nv.keys.len() as int;
    if is_leaf(nv) {
        assert(reach(nodes, i, f2) =~= reach(nodes, i, f));
    } else {
        let fa = (f - 1) as nat;
        let fb = (f2 - 1) as nat;
        assert forall|j: int| 0 <= j <= n implies tree_ok(nodes, (#[trigger] nv.children[j]) as int, t, k, fb)
            && entries(nodes, nv.children[j] as int, fb) == entries(nodes, nv.children[j] as int, fa)
            && reach(nodes, nv.children[j] as int, fb) == reach(nodes, nv.children[j] as int, fa) by {
            lemma_kids_ok_index(nodes, nv.children, n + 1, t, k, fa, j);
            lemma_tree_fuel(nodes, nv.children[j] as int, t, k, fa, fb);
        }
        lemma_kids_ok_build(nodes, nv.children, n + 1, t, k, fb);
        lemma_ent_upto_eq2(nodes, nv, fa, nodes, nv, fb, n);
        lemma_kids_reach_eq(nodes, fa, nodes, fb, nv.children, n + 1);
        assert(reach(nodes, i, f2) =~= reach(nodes, i, f));
        assert forall|j: int| 0 <= j < n implies all_keys_le(
            #[trigger] child_entries(nodes, i, j, fb),
            nv.keys[j],
        ) by {
            assert(child_entries(nodes, i, j, fb) == child_entries(nodes, i, j, fa));
        }
        assert forall|j: int| 1 <= j <= n implies all_keys_ge(
            #[trigger] child_entries(nodes, i, j, fb),
            nv.keys[j - 1],
        ) by {
            assert(child_entries(nodes, i, j, fb) == child_entries(nodes, i, j, fa));
        }
        assert forall|j: int| 0 <= j <= n implies !(#[trigger] child_reach(nodes, i, j, fb)).contains(
            i,
        ) by {
            assert(child_reach(nodes, i, j, fb) == child_reach(nodes, i, j, fa));
        }
        assert forall|j1: int, j2: int| 0 <= j1 < j2 <= n implies (#[trigger] child_reach(
            nodes,
            i,
            j1,
            fb,
        )).disjoint(#[trigger] child_reach(nodes, i, j2, fb)) by {
            assert(child_reach(nodes, i, j1, fb) == child_reach(nodes, i, j1, fa));
            assert(child_reach(nodes, i, j2, fb) == child_reach(nodes, i, j2, fa));
        }
        assert(tree_ok(nodes, i, t, k, f2));
        assert(entries(nodes, i, f2) == entries(nodes, i, f));
    }
}

/// Framing: a subtree only depends on the arena slots it reaches.  An arena
/// that agrees on those slots (and is at least as long) carries the same
/// subtree.
pub proof fn lemma_tree_frame(nodes1: Seq<NodeV>, nodes2: Seq<NodeV>, i: int, t: nat, k: nat, f: nat)
    requires
        tree_ok(nodes1, i, t, k, f),
        nodes1.len() <= nodes2.len(),
        forall|x: int| reach(nodes1, i, f).contains(x) ==> nodes2[x] == nodes1[x],
    ensures
        tree_ok(nodes2, i, t, k, f),
        entries(nodes2, i, f) == entries(nodes1, i, f),
        reach(nodes2, i, f) == reach(nodes1, i, f),
    decreases f,
{
    lemma_reach_valid(nodes1, i, t, k, f);
    lemma_reach_self(nodes1, i, f);
    let nv = nodes1[i];
    let n = nv.keys.len() as int;
    assert(nodes2[i] == nv);
    assert(node_wf(nv, t, k, nodes2.len() as int)) by {
        if !is_leaf(nv) {
            assert forall|j: int| 0 <= j <= n implies child_ok(
                #[trigger] nv.children[j],
                nodes2.len() as int,
            ) by {
                assert(child_ok(nv.children[j], nodes1.len() as int));
            }
        }
    }
    if is_leaf(nv) {
        assert(reach(nodes2, i, f) =~= reach(nodes1, i, f));
    } else {
        let fc = (f - 1) as nat;
        assert forall|j: int| 0 <= j <= n implies tree_ok(nodes2, (#[trigger] nv.children[j]) as int, t, k, fc)
            && entries(nodes2, nv.children[j] as int, fc) == entries(nodes1, nv.children[j] as int, fc)
            && reach(nodes2, nv.children[j] as int, fc) == reach(nodes1, nv.children[j] as int, fc) by {
            lemma_kids_ok_index(nodes1, nv.children, n + 1, t, k, fc, j);
            lemma_kids_reach_sub(nodes1, nv.children, n + 1, fc, j);
            assert forall|x: int| reach(nodes1, nv.children[j] as int, fc).contains(x) implies nodes2[x]
                == nodes1[x] by {
                assert(kids_reach(nodes1, nv.children, n + 1, fc).contains(x));
                assert(reach(nodes1, i, f).contains(x));
            }
            lemma_tree_frame(nodes1, nodes2, nv.children[j] as int, t, k, fc);
        }
        lemma_kids_ok_build(nodes2, nv.children, n + 1, t, k, fc);
        lemma_ent_upto_eq2(nodes2, nv, fc, nodes1, nv, fc, n);
        lemma_kids_reach_eq(nodes2, fc, nodes1, fc, nv.children, n + 1);
        assert(reach(nodes2, i, f) =~= reach(nodes1, i, f));
        assert(entries(nodes2, i, f) == entries(nodes1, i, f));
        assert forall|j: int| 0 <= j < n implies all_keys_le(
            #[trigger] child_entries(nodes2, i, j, fc),
            nv.keys[j],
        ) by {
            assert(child_entries(nodes2, i, j, fc) == child_entries(nodes1, i, j, fc));
        }
        assert forall|j: int| 1 <= j <= n implies all_keys_ge(
            #[trigger] child_entries(nodes2, i, j, fc),
            nv.keys[j - 1],
        ) by {
            assert(child_entries(nodes2, i, j, fc) == child_entries(nodes1, i, j, fc));
        }
        assert forall|j: int| 0 <= j <= n implies !(#[trigger] child_reach(nodes2, i, j, fc)).contains(
            i,
        ) by {
            assert(child_reach(nodes2, i, j, fc) == child_reach(nodes1, i, j, fc));
        }
        assert forall|j1: int, j2: int| 0 <= j1 < j2 <= n implies (#[trigger] child_reach(
            nodes2,
            i,
            j1,
            fc,
        )).disjoint(#[trigger] child_reach(nodes2, i, j2, fc)) by {
            assert(child_reach(nodes2, i, j1, fc) == child_reach(nodes1, i, j1, fc));
            assert(child_reach(nodes2, i, j2, fc) == child_reach(nodes1, i, j2, fc));
        }
        assert(tree_ok(nodes2, i, t, k, f));
    }
}

/// Replacing the entries of one child by the same entries plus one pair adds
/// exactly that pair to the interleaved sequence, as a multiset.
pub proof fn lemma_ent_upto_ms(
    nodesa: Seq<NodeV>,
    nodesb: Seq<NodeV>,
    nv: NodeV,
    m: int,
    f: nat,
    j0: int,
    x: (Seq<u8>, u64),
)
    requires
        0 <= j0 <= m,
        forall|j: int|
            0 <= j <= m && j != j0 ==> entries(nodesb, (#[trigger] nv.children[j]) as int, f)
                == entries(nodesa, nv.children[j] as int, f),
        entries(nodesb, nv.children[j0] as int, f).to_multiset() == entries(
            nodesa,
            nv.children[j0] as int,
            f,
        ).to_multiset().insert(x),
    ensures
        ent_upto(nodesb, nv, m, f).to_multiset() == ent_upto(nodesa, nv, m, f).to_multiset().insert(
            x,
        ),
    decreases m,
{
    broadcast use vstd::seq_lib::lemma_multiset_commutative;
    broadcast use vstd::multiset::group_multiset_axioms;

    if m == 0 {
    } else {
        let pa = ent_upto(nodesa, nv, m - 1, f);
        let pb = ent_upto(nodesb, nv, m - 1, f);
        let mid = seq![(nv.keys[m - 1], nv.values[m - 1])];
        let ea = entries(nodesa, nv.children[m] as int, f);
        let eb = entries(nodesb, nv.children[m] as int, f);
        if j0 == m {
            lemma_ent_upto_eq2(nodesa, nv, f, nodesb, nv, f, m - 1);
            assert(ent_upto(nodesb, nv, m, f).to_multiset() =~= ent_upto(
                nodesa,
                nv,
                m,
                f,
            ).to_multiset().insert(x));
        } else {
            lemma_ent_upto_ms(nodesa, nodesb, nv, m - 1, f, j0, x);
            assert(eb == ea);
            assert(ent_upto(nodesb, nv, m, f).to_multiset() =~= ent_upto(
                nodesa,
                nv,
                m,
                f,
            ).to_multiset().insert(x));
        }
    }
}

/// Splitting a full node `y` into a lower half, the middle pair and an upper
/// half `z` keeps the in-order entry sequence: children `t..=t+m` of `y`
/// re-read through `z` produce the suffix of `y`'s interleaving.
proof fn lemma_split_entries(
    nodes1: Seq<NodeV>,
    nodes2: Seq<NodeV>,
    yv: NodeV,
    zv: NodeV,
    t: nat,
    f: nat,
    m: int,
)
    requires
        t >= 1,
        yv.keys.len() == 2 * t - 1,
        yv.values.len() == 2 * t - 1,
        yv.children.len() == 2 * t,
        0 <= m <= t - 1,
        forall|j: int| 0 <= j < t - 1 ==> #[trigger] zv.keys[j] == yv.keys[t + j],
        forall|j: int| 0 <= j < t - 1 ==> #[trigger] zv.values[j] == yv.values[t + j],
        forall|j: int|
            0 <= j <= t - 1 ==> entries(nodes2, (#[trigger] zv.children[j]) as int, f) == entries(
                nodes1,
                yv.children[t + j] as int,
                f,
            ),
    ensures
        ent_upto(nodes1, yv, t + m, f) == ent_upto(nodes1, yv, t as int - 1, f) + seq![
            (yv.keys[t - 1], yv.values[t - 1]),
        ] + ent_upto(nodes2, zv, m, f),
    decreases m,
{
    if m == 0 {
        assert(ent_upto(nodes2, zv, 0, f) == entries(nodes1, yv.children[t as int] as int, f));
    } else {
        lemma_split_entries(nodes1, nodes2, yv, zv, t, f, m - 1);
        assert(zv.keys[m - 1] == yv.keys[t + m - 1]);
        assert(zv.values[m - 1] == yv.values[t + m - 1]);
        assert(entries(nodes2, zv.children[m] as int, f) == entries(
            nodes1,
            yv.children[t + m] as int,
            f,
        ));
        assert(ent_upto(nodes1, yv, t + m, f) =~= ent_upto(nodes1, yv, t as int - 1, f) + seq![
            (yv.keys[t - 1], yv.values[t - 1]),
        ] + ent_upto(nodes2, zv, m, f));
    }
}

/// An owned copy of a byte string.
fn copy_bytes(src: &Vec<u8>) -> (r: Vec<u8>)
    ensures
        r@ == src@,
{
    let mut r: Vec<u8> = Vec::new();
    let mut i: usize = 0;
    while i < src.len()
        invariant
            i <= src@.len(),
            r@ == src@.subrange(0, i as int),
        decreases src@.len() - i,
    {
        let b = src[i];
        r.push(b);
        proof {
            assert(r@ =~= src@.subrange(0, i + 1));
        }
        i = i + 1;
    }
    proof {
        assert(r@ =~= src@);
    }
    r
}

/// Keys `from..to` of `src`, as owned copies.
fn sub_keys(src: &Vec<Vec<u8>>, from: usize, to: usize) -> (r: Vec<Vec<u8>>)
    requires
        from <= to <= src@.len(),
    ensures
        r@.len() == to - from,
        forall|j: int| 0 <= j < to - from ==> #[trigger] r@[j]@ == src@[from + j]@,
{
    let mut r: Vec<Vec<u8>> = Vec::new();
    let mut i: usize = from;
    while i < to
        invariant
            from <= i <= to <= src@.len(),
            r@.len() == i - from,
            forall|j: int| 0 <= j < i - from ==> #[trigger] r@[j]@ == src@[from + j]@,
        decreases to - i,
    {
        let x = copy_bytes(&src[i]);
        r.push(x);
        i = i + 1;
    }
    r
}

/// Values `from..to` of `src`.
fn sub_vals(src: &Vec<u64>, from: usize, to: usize) -> (r: Vec<u64>)
    requires
        from <= to <= src@.len(),
    ensures
        r@ == src@.subrange(from as int, to as int),
{
    let mut r: Vec<u64> = Vec::new();
    let mut i: usize = from;
    while i < to
        invariant
            from <= i <= to <= src@.len(),
            r@ == src@.subrange(from as int, i as int),
        decreases to - i,
    {
        let x = src[i];
        r.push(x);
        proof {
            assert(r@ =~= src@.subrange(from as int, i + 1));
        }
        i = i + 1;
    }
    r
}

/// A child vector of length `total`: slots `from..from+count` of `src` first,
/// absent markers after.
fn sub_children(src: &Vec<i64>, from: usize, count: usize, total: usize) -> (r: Vec<i64>)
    requires
        from + count <= src@.len(),
        count <= total,
    ensures
        r@.len() == total,
        forall|j: int| 0 <= j < count ==> r@[j] == src@[from + j],
        forall|j: int| count <= j < total ==> r@[j] == -1i64,
{
    let mut r: Vec<i64> = Vec::new();
    let mut i: usize = 0;
    let slen = src.len();
    while i < count
        invariant
            i <= count,
            from + count <= slen,
            slen == src@.len(),
            r@.len() == i,
            forall|j: int| 0 <= j < i ==> r@[j] == src@[from + j],
        decreases count - i,
    {
        let x = src[from + i];
        r.push(x);
        i = i + 1;
    }
    while i < total
        invariant
            count <= i <= total,
            from + count <= src@.len(),
            r@.len() == i,
            forall|j: int| 0 <= j < count ==> r@[j] == src@[from + j],
            forall|j: int| count <= j < i ==> r@[j] == -1i64,
        decreases total - i,
    {
        r.push(-1);
        i = i + 1;
    }
    r
}

impl Index {
    /// Split the full child at arena position `y_idx` of `parent` (child slot
    /// `i`): the child keeps its lower `t-1` pairs, a fresh sibling appended
    /// at the end of the arena takes the upper `t-1`, and the middle pair
    /// moves up into `parent` at key slot `i`, the sibling becoming child
    /// `i+1`.  The caller persists `parent` itself.
    #[verifier::rlimit(60)]
    fn split_child(&mut self, parent: &mut Node, i: usize, y_idx: usize, Ghost(fy): Ghost<nat>)
        requires
            2 <= old(self)@.t <= 0x4000_0000,
            old(self)@.keysize <= 0xFFFF,
            old(self)@.nodes.len() < 0x4000_0000_0000_0000,
            arena_wf(old(self)@.nodes, old(self)@.t, old(self)@.keysize),
            y_idx < old(self)@.nodes.len(),
            tree_ok(old(self)@.nodes, y_idx as int, old(self)@.t, old(self)@.keysize, fy),
            old(self)@.nodes[y_idx as int].keys.len() == 2 * old(self)@.t - 1,
            node_wf(old(parent)@, old(self)@.t, old(self)@.keysize, old(self)@.nodes.len() as int),
            !is_leaf(old(parent)@),
            old(parent)@.keys.len() < 2 * old(self)@.t - 1,
            i <= old(parent)@.keys.len(),
        ensures
            ({
                let t = old(self)@.t;
                let k = old(self)@.keysize;
                let nodes1 = old(self)@.nodes;
                let len1 = nodes1.len() as int;
                let yv = nodes1[y_idx as int];
                let promk = yv.keys[t - 1];
                let promv = yv.values[t - 1];
                let nodes2 = final(self)@.nodes;
                let pv1 = old(parent)@;
                let pv2 = final(parent)@;
                &&& final(self)@.t == t && final(self)@.keysize == k && final(self)@.root == old(
                    self,
                )@.root
                &&& nodes2.len() == len1 + 1
                &&& (forall|j: int| 0 <= j < len1 && j != y_idx ==> nodes2[j] == nodes1[j])
                &&& arena_wf(nodes2, t, k)
                &&& tree_ok(nodes2, y_idx as int, t, k, fy)
                &&& tree_ok(nodes2, len1, t, k, fy)
                &&& nodes2[y_idx as int].keys.len() == t - 1
                &&& nodes2[len1].keys.len() == t - 1
                &&& entries(nodes2, y_idx as int, fy) + seq![(promk, promv)] + entries(
                    nodes2,
                    len1,
                    fy,
                ) == entries(nodes1, y_idx as int, fy)
                &&& entries(nodes1, y_idx as int, fy).contains((promk, promv))
                &&& all_keys_le(entries(nodes2, y_idx as int, fy), promk)
                &&& all_keys_ge(entries(nodes2, len1, fy), promk)
                &&& (forall|x: int|
                    reach(nodes2, y_idx as int, fy).contains(x) ==> reach(
                        nodes1,
                        y_idx as int,
                        fy,
                    ).contains(x))
                &&& (forall|x: int|
                    reach(nodes2, len1, fy).contains(x) ==> reach(nodes1, y_idx as int, fy).contains(
                        x,
                    ) || x == len1)
                &&& reach(nodes2, y_idx as int, fy).disjoint(reach(nodes2, len1, fy))
                &&& pv2.keys.len() == pv1.keys.len() + 1
                &&& pv2.values.len() == pv1.values.len() + 1
                &&& pv2.children.len() == pv1.children.len()
                &&& (forall|j: int|
                    0 <= j < i ==> #[trigger] pv2.keys[j] == pv1.keys[j] && pv2.values[j]
                        == pv1.values[j])
                &&& pv2.keys[i as int] == promk && pv2.values[i as int] == promv
                &&& (forall|j: int|
                    i < j < pv2.keys.len() ==> #[trigger] pv2.keys[j] == pv1.keys[j - 1]
                        && pv2.values[j] == pv1.values[j - 1])
                &&& (forall|j: int| 0 <= j <= i ==> #[trigger] pv2.children[j] == pv1.children[j])
                &&& pv2.children[i as int + 1] == len1 as i64
                &&& (forall|j: int|
                    i + 1 < j < pv2.children.len() ==> #[trigger] pv2.children[j] == pv1.children[j
                        - 1])
                &&& nodes2.len() + arena_excess(nodes2, t) <= len1 + arena_excess(nodes1, t) + 1
                    - t
                &&& is_leaf(nodes2[y_idx as int]) == is_leaf(yv)
                &&& is_leaf(nodes2[len1]) == is_leaf(yv)
                &&& (forall|j: int|
                    0 <= j < t - 1 ==> #[trigger] nodes2[y_idx as int].keys[j] == yv.keys[j]
                        && nodes2[y_idx as int].values[j] == yv.values[j])
                &&& (forall|j: int|
                    0 <= j < t - 1 ==> #[trigger] nodes2[len1].keys[j] == yv.keys[t + j]
                        && nodes2[len1].values[j] == yv.values[t + j])
                &&& (!is_leaf(yv) ==> (forall|j: int|
                    0 <= j < t ==> #[trigger] nodes2[y_idx as int].children[j] == yv.children[j]
                        && nodes2[len1].children[j] == yv.children[t + j]))
                &&& (forall|j: int|
                    t <= j < 2 * t ==> #[trigger] nodes2[y_idx as int].children[j] == -1i64
                        && nodes2[len1].children[j] == -1i64)
                &&& (is_leaf(yv) ==> (forall|j: int|
                    0 <= j < 2 * t ==> #[trigger] nodes2[y_idx as int].children[j] == -1i64
                        && nodes2[len1].children[j] == -1i64))
            }),
    {
        let ghost t_s = self@.t;
        let ghost k_s = self@.keysize;
        let ghost nodes1 = self@.nodes;
        let ghost yv = nodes1[y_idx as int];
        let ghost fc = (fy - 1) as nat;
        let t = self.t as usize;
        let ynode = &self.nodes[y_idx];
        proof {
            assert(ynode@ == yv);
            assert(forall|j: int|
                0 <= j < ynode.keys@.len() ==> #[trigger] ynode.keys@[j]@ == yv.keys[j]);
            assert(ynode.values@ == yv.values);
            assert(ynode.children@ == yv.children);
        }
        let y2keys = sub_keys(&ynode.keys, 0, t - 1);
        let y2vals = sub_vals(&ynode.values, 0, t - 1);
        let zkeys = sub_keys(&ynode.keys, t, 2 * t - 1);
        let zvals = sub_vals(&ynode.values, t, 2 * t - 1);
        let leaf = ynode.children[0] == -1;
        let y2children = if leaf {
            neg_ones(2 * t)
        } else {
            sub_children(&ynode.children, 0, t, 2 * t)
        };
        let zchildren = if leaf {
            neg_ones(2 * t)
        } else {
            sub_children(&ynode.children, t, t, 2 * t)
        };
        let promk = copy_bytes(&ynode.keys[t - 1]);
        let promv = ynode.values[t - 1];
        let zidx = self.nodes.len();
        let z = Node { keys: zkeys, values: zvals, children: zchildren };
        self.nodes.push(z);
        let y2 = Node { keys: y2keys, values: y2vals, children: y2children };
        self.nodes.set(y_idx, y2);
        parent.keys.insert(i, promk);
        parent.values.insert(i, promv);
        parent.children.insert(i + 1, zidx as i64);
        let _tail = parent.children.pop();
        proof {
            let t = t_s;
            let k = k_s;
            let len1 = nodes1.len() as int;
            let nodes2 = self@.nodes;
            let y2v = nodes2[y_idx as int];
            let zv = nodes2[len1];
            let pk0 = yv.keys[t - 1];
            let pv0 = yv.values[t - 1];

            // shape of the new arena
            assert(nodes2.len() == len1 + 1);
            assert forall|j: int| 0 <= j < len1 && j != y_idx implies nodes2[j] == nodes1[j] by {}
            assert(y2v.keys.len() == t - 1);
            assert(forall|j: int| 0 <= j < t - 1 ==> #[trigger] y2v.keys[j] == yv.keys[j]);
            assert(y2v.values =~= yv.values.subrange(0, t as int - 1));
            assert(forall|j: int| 0 <= j < t - 1 ==> #[trigger] y2v.values[j] == yv.values[j]);
            assert(y2v.children.len() == 2 * t);
            assert(zv.keys.len() == t - 1);
            assert(forall|j: int| 0 <= j < t - 1 ==> #[trigger] zv.keys[j] == yv.keys[t + j]);
            assert(zv.values =~= yv.values.subrange(t as int, 2 * t - 1));
            assert(forall|j: int| 0 <= j < t - 1 ==> #[trigger] zv.values[j] == yv.values[t + j]);
            assert(zv.children.len() == 2 * t);
            assert(is_leaf(yv) == (yv.children[0] == -1));

            // keys of y are k wide and sorted (from node_wf in tree_ok)
            assert(node_wf(yv, t, k, len1));

            if !is_leaf(yv) {
                assert(forall|j: int| 0 <= j < t ==> #[trigger] y2v.children[j] == yv.children[j]);
                assert(forall|j: int| t <= j < 2 * t ==> #[trigger] y2v.children[j] == -1i64);
                assert(forall|j: int| 0 <= j < t ==> #[trigger] zv.children[j] == yv.children[t + j]);
                assert(forall|j: int| t <= j < 2 * t ==> #[trigger] zv.children[j] == -1i64);
                assert(!is_leaf(y2v));
                assert(!is_leaf(zv));

                // frame every child of y into the new arena
                assert forall|j: int| 0 <= j < 2 * t implies tree_ok(
                    nodes2,
                    (#[trigger] yv.children[j]) as int,
                    t,
                    k,
                    fc,
                ) && entries(nodes2, yv.children[j] as int, fc) == entries(
                    nodes1,
                    yv.children[j] as int,
                    fc,
                ) && reach(nodes2, yv.children[j] as int, fc) == reach(
                    nodes1,
                    yv.children[j] as int,
                    fc,
                ) by {
                    lemma_kids_ok_index(nodes1, yv.children, 2 * t as int, t, k, fc, j);
                    lemma_reach_valid(nodes1, yv.children[j] as int, t, k, fc);
                    assert(!(#[trigger] child_reach(nodes1, y_idx as int, j, fc)).contains(
                        y_idx as int,
                    ));
                    assert forall|x: int|
                        reach(nodes1, yv.children[j] as int, fc).contains(x) implies nodes2[x]
                        == nodes1[x] by {
                        assert(0 <= x < len1);
                        assert(x != y_idx);
                    }
                    lemma_tree_frame(nodes1, nodes2, yv.children[j] as int, t, k, fc);
                }

                // node_wf of the two halves
                assert(node_wf(y2v, t, k, nodes2.len() as int)) by {
                    assert forall|a: int, b: int| 0 <= a <= b < t - 1 implies lex_le(
                        y2v.keys[a],
                        y2v.keys[b],
                    ) by {
                        assert(lex_le(yv.keys[a], yv.keys[b]));
                    }
                    assert forall|j: int| 0 <= j <= t - 1 implies child_ok(
                        #[trigger] y2v.children[j],
                        nodes2.len() as int,
                    ) by {
                        assert(child_ok(yv.children[j], len1));
                    }
                }
                assert(node_wf(zv, t, k, nodes2.len() as int)) by {
                    assert forall|a: int, b: int| 0 <= a <= b < t - 1 implies lex_le(
                        zv.keys[a],
                        zv.keys[b],
                    ) by {
                        assert(lex_le(yv.keys[t + a], yv.keys[t + b]));
                    }
                    assert forall|j: int| 0 <= j <= t - 1 implies child_ok(
                        #[trigger] zv.children[j],
                        nodes2.len() as int,
                    ) by {
                        assert(child_ok(yv.children[t + j], len1));
                    }
                }

                // tree_ok of the lower half
                assert forall|j: int| 0 <= j < t implies tree_ok(
                    nodes2,
                    (#[trigger] y2v.children[j]) as int,
                    t,
                    k,
                    fc,
                ) by {
                    assert(y2v.children[j] == yv.children[j]);
                }
                lemma_kids_ok_build(nodes2, y2v.children, t as int, t, k, fc);
                assert forall|j: int| 0 <= j < t - 1 implies all_keys_le(
                    #[trigger] child_entries(nodes2, y_idx as int, j, fc),
                    y2v.keys[j],
                ) by {
                    assert(child_entries(nodes2, y_idx as int, j, fc) == child_entries(
                        nodes1,
                        y_idx as int,
                        j,
                        fc,
                    ));
                    assert(all_keys_le(child_entries(nodes1, y_idx as int, j, fc), yv.keys[j]));
                }
                assert forall|j: int| 1 <= j <= t - 1 implies all_keys_ge(
                    #[trigger] child_entries(nodes2, y_idx as int, j, fc),
                    y2v.keys[j - 1],
                ) by {
                    assert(child_entries(nodes2, y_idx as int, j, fc) == child_entries(
                        nodes1,
                        y_idx as int,
                        j,
                        fc,
                    ));
                    assert(all_keys_ge(child_entries(nodes1, y_idx as int, j, fc), yv.keys[j - 1]));
                }
                assert forall|j: int| 0 <= j <= t - 1 implies !(#[trigger] child_reach(
                    nodes2,
                    y_idx as int,
                    j,
                    fc,
                )).contains(y_idx as int) by {
                    assert(child_reach(nodes2, y_idx as int, j, fc) == child_reach(
                        nodes1,
                        y_idx as int,
                        j,
                        fc,
                    ));
                }
                assert forall|j1: int, j2: int| 0 <= j1 < j2 <= t - 1 implies (#[trigger] child_reach(
                    nodes2,
                    y_idx as int,
                    j1,
                    fc,
                )).disjoint(#[trigger] child_reach(nodes2, y_idx as int, j2, fc)) by {
                    assert(child_reach(nodes2, y_idx as int, j1, fc) == child_reach(
                        nodes1,
                        y_idx as int,
                        j1,
                        fc,
                    ));
                    assert(child_reach(nodes2, y_idx as int, j2, fc) == child_reach(
                        nodes1,
                        y_idx as int,
                        j2,
                        fc,
                    ));
                }
                assert(tree_ok(nodes2, y_idx as int, t, k, fy));

                // tree_ok of the upper half
                assert forall|j: int| 0 <= j < t implies tree_ok(
                    nodes2,
                    (#[trigger] zv.children[j]) as int,
                    t,
                    k,
                    fc,
                ) by {
                    assert(zv.children[j] == yv.children[t + j]);
                }
                lemma_kids_ok_build(nodes2, zv.children, t as int, t, k, fc);
                assert forall|j: int| 0 <= j < t - 1 implies all_keys_le(
                    #[trigger] child_entries(nodes2, len1, j, fc),
                    zv.keys[j],
                ) by {
                    assert(zv.children[j] == yv.children[t + j]);
                    assert(child_entries(nodes2, len1, j, fc) == child_entries(
                        nodes1,
                        y_idx as int,
                        t + j,
                        fc,
                    ));
                    assert(all_keys_le(child_entries(nodes1, y_idx as int, t + j, fc), yv.keys[t + j]));
                }
                assert forall|j: int| 1 <= j <= t - 1 implies all_keys_ge(
                    #[trigger] child_entries(nodes2, len1, j, fc),
                    zv.keys[j - 1],
                ) by {
                    assert(zv.children[j] == yv.children[t + j]);
                    assert(child_entries(nodes2, len1, j, fc) == child_entries(
                        nodes1,
                        y_idx as int,
                        t + j,
                        fc,
                    ));
                    assert(all_keys_ge(
                        child_entries(nodes1, y_idx as int, t + j, fc),
                        yv.keys[t + j - 1],
                    ));
                }
                assert forall|j: int| 0 <= j <= t - 1 implies !(#[trigger] child_reach(
                    nodes2,
                    len1,
                    j,
                    fc,
                )).contains(len1) by {
                    assert(zv.children[j] == yv.children[t + j]);
                    assert(child_reach(nodes2, len1, j, fc) == child_reach(
                        nodes1,
                        y_idx as int,
                        t + j,
                        fc,
                    ));
                    lemma_kids_ok_index(nodes1, yv.children, 2 * t as int, t, k, fc, t + j);
                    lemma_reach_valid(nodes1, yv.children[t + j] as int, t, k, fc);
                }
                assert forall|j1: int, j2: int| 0 <= j1 < j2 <= t - 1 implies (#[trigger] child_reach(
                    nodes2,
                    len1,
                    j1,
                    fc,
                )).disjoint(#[trigger] child_reach(nodes2, len1, j2, fc)) by {
                    assert(zv.children[j1] == yv.children[t + j1]);
                    assert(zv.children[j2] == yv.children[t + j2]);
                    assert(child_reach(nodes2, len1, j1, fc) == child_reach(
                        nodes1,
                        y_idx as int,
                        t + j1,
                        fc,
                    ));
                    assert(child_reach(nodes2, len1, j2, fc) == child_reach(
                        nodes1,
                        y_idx as int,
                        t + j2,
                        fc,
                    ));
                    assert(child_reach(nodes1, y_idx as int, t + j1, fc).disjoint(
                        child_reach(nodes1, y_idx as int, t + j2, fc),
                    ));
                }
                assert(tree_ok(nodes2, len1, t, k, fy));

                // the entry equation
                assert forall|j: int| 0 <= j <= t - 1 implies entries(
                    nodes2,
                    (#[trigger] y2v.children[j]) as int,
                    fc,
                ) == entries(nodes1, yv.children[j] as int, fc) by {
                    assert(y2v.children[j] == yv.children[j]);
                }
                lemma_ent_upto_eq2(nodes2, y2v, fc, nodes1, yv, fc, t as int - 1);
                assert forall|j: int| 0 <= j <= t - 1 implies entries(
                    nodes2,
                    (#[trigger] zv.children[j]) as int,
                    fc,
                ) == entries(nodes1, yv.children[t + j] as int, fc) by {
                    assert(zv.children[j] == yv.children[t + j]);
                }
                lemma_split_entries(nodes1, nodes2, yv, zv, t, fc, t as int - 1);
                assert(entries(nodes2, y_idx as int, fy) == ent_upto(nodes2, y2v, t as int - 1, fc));
                assert(entries(nodes2, len1, fy) == ent_upto(nodes2, zv, t as int - 1, fc));
                assert(entries(nodes1, y_idx as int, fy) == ent_upto(nodes1, yv, 2 * t - 1, fc));
                assert(2 * t - 1 == t + (t as int - 1));
                assert(entries(nodes2, y_idx as int, fy) + seq![(pk0, pv0)] + entries(
                    nodes2,
                    len1,
                    fy,
                ) == entries(nodes1, y_idx as int, fy));

                // bounds of the halves relative to the promoted key
                assert forall|e: int|
                    0 <= e < entries(nodes2, y_idx as int, fy).len() implies lex_le(
                    (#[trigger] entries(nodes2, y_idx as int, fy)[e]).0,
                    pk0,
                ) by {
                    let x = entries(nodes2, y_idx as int, fy)[e];
                    assert(entries(nodes2, y_idx as int, fy).contains(x));
                    lemma_ent_upto_cases(nodes2, y2v, t as int - 1, fc, x);
                    if exists|j: int|
                        0 <= j <= t - 1 && entries(nodes2, (#[trigger] y2v.children[j]) as int, fc)
                            .contains(x) {
                        let j = choose|j: int|
                            0 <= j <= t - 1 && entries(
                                nodes2,
                                (#[trigger] y2v.children[j]) as int,
                                fc,
                            ).contains(x);
                        assert(y2v.children[j] == yv.children[j]);
                        assert(all_keys_le(child_entries(nodes1, y_idx as int, j, fc), yv.keys[j]));
                        lemma_all_keys_le_contains(
                            child_entries(nodes1, y_idx as int, j, fc),
                            yv.keys[j],
                            x,
                        );
                        assert(lex_le(x.0, yv.keys[j]));
                        assert(lex_le(yv.keys[j], pk0));
                        lemma_lex_le_trans(x.0, yv.keys[j], pk0);
                    } else {
                        let j = choose|j: int|
                            0 <= j < t - 1 && x == (y2v.keys[j], y2v.values[j]);
                        assert(x.0 == yv.keys[j]);
                        assert(lex_le(yv.keys[j], pk0));
                    }
                }
                assert forall|e: int|
                    0 <= e < entries(nodes2, len1, fy).len() implies lex_le(
                    pk0,
                    (#[trigger] entries(nodes2, len1, fy)[e]).0,
                ) by {
                    let x = entries(nodes2, len1, fy)[e];
                    assert(entries(nodes2, len1, fy).contains(x));
                    lemma_ent_upto_cases(nodes2, zv, t as int - 1, fc, x);
                    if exists|j: int|
                        0 <= j <= t - 1 && entries(nodes2, (#[trigger] zv.children[j]) as int, fc)
                            .contains(x) {
                        let j = choose|j: int|
                            0 <= j <= t - 1 && entries(
                                nodes2,
                                (#[trigger] zv.children[j]) as int,
                                fc,
                            ).contains(x);
                        assert(zv.children[j] == yv.children[t + j]);
                        assert(all_keys_ge(
                            child_entries(nodes1, y_idx as int, t + j, fc),
                            yv.keys[t + j - 1],
                        ));
                        lemma_all_keys_ge_contains(
                            child_entries(nodes1, y_idx as int, t + j, fc),
                            yv.keys[t + j - 1],
                            x,
                        );
                        assert(lex_le(yv.keys[t + j - 1], x.0));
                        assert(lex_le(pk0, yv.keys[t + j - 1]));
                        lemma_lex_le_trans(pk0, yv.keys[t + j - 1], x.0);
                    } else {
                        let j = choose|j: int|
                            0 <= j < t - 1 && x == (zv.keys[j], zv.values[j]);
                        assert(x.0 == yv.keys[t + j]);
                        assert(lex_le(pk0, yv.keys[t + j]));
                    }
                }

                // reach of the halves
                assert forall|x: int|
                    reach(nodes2, y_idx as int, fy).contains(x) implies reach(
                    nodes1,
                    y_idx as int,
                    fy,
                ).contains(x) by {
                    if x != y_idx {
                        assert(kids_reach(nodes2, y2v.children, t as int, fc).contains(x));
                        lemma_kids_reach_elem(nodes2, y2v.children, t as int, fc, x);
                        let j = choose|j: int|
                            0 <= j < t && reach(nodes2, (#[trigger] y2v.children[j]) as int, fc)
                                .contains(x);
                        assert(y2v.children[j] == yv.children[j]);
                        assert(reach(nodes1, yv.children[j] as int, fc).contains(x));
                        lemma_kids_reach_sub(nodes1, yv.children, 2 * t as int, fc, j);
                    } else {
                        lemma_reach_self(nodes1, y_idx as int, fy);
                    }
                }
                assert forall|x: int|
                    reach(nodes2, len1, fy).contains(x) implies reach(
                    nodes1,
                    y_idx as int,
                    fy,
                ).contains(x) || x == len1 by {
                    if x != len1 {
                        assert(kids_reach(nodes2, zv.children, t as int, fc).contains(x));
                        lemma_kids_reach_elem(nodes2, zv.children, t as int, fc, x);
                        let j = choose|j: int|
                            0 <= j < t && reach(nodes2, (#[trigger] zv.children[j]) as int, fc)
                                .contains(x);
                        assert(zv.children[j] == yv.children[t + j]);
                        assert(reach(nodes1, yv.children[t + j] as int, fc).contains(x));
                        lemma_kids_reach_sub(nodes1, yv.children, 2 * t as int, fc, t + j);
                    }
                }
                assert forall|x: int|
                    reach(nodes2, y_idx as int, fy).contains(x) && reach(nodes2, len1, fy).contains(
                        x,
                    ) implies false by {
                    if x == y_idx {
                        assert(reach(nodes2, len1, fy).contains(x));
                        if x != len1 {
                            lemma_kids_reach_elem(nodes2, zv.children, t as int, fc, x);
                            let j = choose|j: int|
                                0 <= j < t && reach(nodes2, (#[trigger] zv.children[j]) as int, fc)
                                    .contains(x);
                            assert(zv.children[j] == yv.children[t + j]);
                            assert(!(#[trigger] child_reach(nodes1, y_idx as int, t + j, fc))
                                .contains(y_idx as int));
                        }
                    } else if x == len1 {
                        lemma_kids_reach_elem(nodes2, y2v.children, t as int, fc, x);
                        let j = choose|j: int|
                            0 <= j < t && reach(nodes2, (#[trigger] y2v.children[j]) as int, fc)
                                .contains(x);
                        assert(y2v.children[j] == yv.children[j]);
                        lemma_kids_ok_index(nodes1, yv.children, 2 * t as int, t, k, fc, j);
                        lemma_reach_valid(nodes1, yv.children[j] as int, t, k, fc);
                    } else {
                        lemma_kids_reach_elem(nodes2, y2v.children, t as int, fc, x);
                        let j1 = choose|j: int|
                            0 <= j < t && reach(nodes2, (#[trigger] y2v.children[j]) as int, fc)
                                .contains(x);
                        lemma_kids_reach_elem(nodes2, zv.children, t as int, fc, x);
                        let j2 = choose|j: int|
                            0 <= j < t && reach(nodes2, (#[trigger] zv.children[j]) as int, fc)
                                .contains(x);
                        assert(y2v.children[j1] == yv.children[j1]);
                        assert(zv.children[j2] == yv.children[t + j2]);
                        assert(child_reach(nodes1, y_idx as int, j1, fc).disjoint(
                            child_reach(nodes1, y_idx as int, t + j2, fc),
                        ));
                        assert(child_reach(nodes1, y_idx as int, j1, fc).contains(x));
                        assert(child_reach(nodes1, y_idx as int, t + j2, fc).contains(x));
                    }
                }
                assert(reach(nodes2, y_idx as int, fy).disjoint(reach(nodes2, len1, fy)));
            } else {
                // y is a leaf: both halves are leaves holding slices of its pairs
                assert(forall|j: int| 0 <= j < 2 * t ==> #[trigger] yv.children[j] == -1i64);
                assert(is_leaf(y2v));
                assert(is_leaf(zv));
                assert(node_wf(y2v, t, k, nodes2.len() as int)) by {
                    assert forall|a: int, b: int| 0 <= a <= b < t - 1 implies lex_le(
                        y2v.keys[a],
                        y2v.keys[b],
                    ) by {
                        assert(lex_le(yv.keys[a], yv.keys[b]));
                    }
                }
                assert(node_wf(zv, t, k, nodes2.len() as int)) by {
                    assert forall|a: int, b: int| 0 <= a <= b < t - 1 implies lex_le(
                        zv.keys[a],
                        zv.keys[b],
                    ) by {
                        assert(lex_le(yv.keys[t + a], yv.keys[t + b]));
                    }
                }
                assert(tree_ok(nodes2, y_idx as int, t, k, fy));
                assert(tree_ok(nodes2, len1, t, k, fy));
                assert(entries(nodes2, y_idx as int, fy) == pairs(y2v));
                assert(entries(nodes2, len1, fy) == pairs(zv));
                assert(entries(nodes1, y_idx as int, fy) == pairs(yv));
                assert(pairs(y2v) + seq![(pk0, pv0)] + pairs(zv) =~= pairs(yv));
                assert forall|e: int|
                    0 <= e < entries(nodes2, y_idx as int, fy).len() implies lex_le(
                    (#[trigger] entries(nodes2, y_idx as int, fy)[e]).0,
                    pk0,
                ) by {
                    assert(lex_le(yv.keys[e], pk0));
                }
                assert forall|e: int|
                    0 <= e < entries(nodes2, len1, fy).len() implies lex_le(
                    pk0,
                    (#[trigger] entries(nodes2, len1, fy)[e]).0,
                ) by {
                    assert(lex_le(pk0, yv.keys[t + e]));
                }
                assert(reach(nodes2, y_idx as int, fy) =~= set!{y_idx as int});
                assert(reach(nodes2, len1, fy) =~= set!{len1});
                lemma_reach_self(nodes1, y_idx as int, fy);
                assert(reach(nodes2, y_idx as int, fy).disjoint(reach(nodes2, len1, fy)));
            }

            // the promoted pair came from y
            let lhs = entries(nodes2, y_idx as int, fy) + seq![(pk0, pv0)] + entries(
                nodes2,
                len1,
                fy,
            );
            assert(lhs[entries(nodes2, y_idx as int, fy).len() as int] == (pk0, pv0));
            assert(entries(nodes1, y_idx as int, fy).contains((pk0, pv0)));

            // the split spends one unit of budget per new node and more
            assert(nodes2 =~= nodes1.push(zv).update(y_idx as int, y2v));
            lemma_excess_push(nodes1, zv, t);
            lemma_excess_update(nodes1.push(zv), y_idx as int, y2v, t);
            assert(nodes1.push(zv)[y_idx as int] == yv);
            assert(node_excess(yv, t) == t);
            assert(node_excess(zv, t) == 0);
            assert(node_excess(y2v, t) == 0);
            assert(nodes2.len() + arena_excess(nodes2, t) <= len1 + arena_excess(nodes1, t) + 1
                - t);
            // the halves inherit the leaf bit
            if is_leaf(yv) {
                assert(forall|j: int| 0 <= j < 2 * t ==> #[trigger] y2v.children[j] == -1i64);
                assert(forall|j: int| 0 <= j < 2 * t ==> #[trigger] zv.children[j] == -1i64);
            }
            // the whole arena stays structurally sound
            assert forall|j: int| 0 <= j < nodes2.len() implies node_wf(
                #[trigger] nodes2[j],
                t,
                k,
                nodes2.len() as int,
            ) by {
                if j != y_idx && j != len1 {
                    assert(node_wf(nodes1[j], t, k, len1));
                    let nv = nodes1[j];
                    if !is_leaf(nv) {
                        assert forall|s: int| 0 <= s <= nv.keys.len() implies child_ok(
                            #[trigger] nv.children[s],
                            nodes2.len() as int,
                        ) by {
                            assert(child_ok(nv.children[s], len1));
                        }
                    }
                }
            }
        }
    }
}

/// After splitting child `p`, the parent's interleaved entry sequence is
/// unchanged: the promoted pair stands exactly where child `p`'s middle
/// entries stood.
proof fn lemma_split_parent_entries(
    nodes1: Seq<NodeV>,
    nv1: NodeV,
    nodes3: Seq<NodeV>,
    pv2: NodeV,
    p: int,
    f: nat,
    m: int,
)
    requires
        0 <= p <= m <= nv1.keys.len(),
        nv1.values.len() == nv1.keys.len(),
        nv1.children.len() > nv1.keys.len() + 1,
        pv2.keys.len() == nv1.keys.len() + 1,
        pv2.values.len() == nv1.values.len() + 1,
        pv2.children.len() == nv1.children.len(),
        forall|j: int| 0 <= j < p ==> #[trigger] pv2.keys[j] == nv1.keys[j],
        forall|j: int| 0 <= j < p ==> #[trigger] pv2.values[j] == nv1.values[j],
        forall|j: int| p < j < pv2.keys.len() ==> #[trigger] pv2.keys[j] == nv1.keys[j - 1],
        forall|j: int| p < j < pv2.values.len() ==> #[trigger] pv2.values[j] == nv1.values[j - 1],
        forall|j: int| 0 <= j <= p ==> #[trigger] pv2.children[j] == nv1.children[j],
        forall|j: int|
            p + 1 < j < pv2.children.len() ==> #[trigger] pv2.children[j] == nv1.children[j - 1],
        forall|j: int|
            0 <= j <= nv1.keys.len() && j != p ==> entries(
                nodes3,
                (#[trigger] nv1.children[j]) as int,
                f,
            ) == entries(nodes1, nv1.children[j] as int, f),
        entries(nodes3, pv2.children[p] as int, f) + seq![(pv2.keys[p], pv2.values[p])] + entries(
            nodes3,
            pv2.children[p + 1] as int,
            f,
        ) == entries(nodes1, nv1.children[p] as int, f),
    ensures
        ent_upto(nodes3, pv2, m + 1, f) == ent_upto(nodes1, nv1, m, f),
    decreases m,
{
    if m == p {
        assert(ent_upto(nodes3, pv2, p + 1, f) == ent_upto(nodes3, pv2, p, f) + seq![
            (pv2.keys[p], pv2.values[p]),
        ] + entries(nodes3, pv2.children[p + 1] as int, f));
        if p == 0 {
            assert(ent_upto(nodes3, pv2, 0, f) == entries(nodes3, pv2.children[0] as int, f));
            assert(ent_upto(nodes1, nv1, 0, f) == entries(nodes1, nv1.children[0] as int, f));
            assert(pv2.children[0] == nv1.children[0]);
            assert(ent_upto(nodes3, pv2, 1, f) =~= ent_upto(nodes1, nv1, 0, f));
        } else {
            lemma_ent_upto_eq2(nodes3, pv2, f, nodes1, nv1, f, p - 1);
            assert(ent_upto(nodes3, pv2, p, f) == ent_upto(nodes3, pv2, p - 1, f) + seq![
                (pv2.keys[p - 1], pv2.values[p - 1]),
            ] + entries(nodes3, pv2.children[p] as int, f));
            assert(ent_upto(nodes1, nv1, p, f) == ent_upto(nodes1, nv1, p - 1, f) + seq![
                (nv1.keys[p - 1], nv1.values[p - 1]),
            ] + entries(nodes1, nv1.children[p] as int, f));
            assert(pv2.keys[p - 1] == nv1.keys[p - 1] && pv2.values[p - 1] == nv1.values[p - 1]);
            assert(pv2.children[p] == nv1.children[p]);
            assert(ent_upto(nodes3, pv2, p + 1, f) =~= ent_upto(nodes1, nv1, p, f));
        }
    } else {
        lemma_split_parent_entries(nodes1, nv1, nodes3, pv2, p, f, m - 1);
        assert(ent_upto(nodes3, pv2, m + 1, f) == ent_upto(nodes3, pv2, m, f) + seq![
            (pv2.keys[m], pv2.values[m]),
        ] + entries(nodes3, pv2.children[m + 1] as int, f));
        assert(ent_upto(nodes1, nv1, m, f) == ent_upto(nodes1, nv1, m - 1, f) + seq![
            (nv1.keys[m - 1], nv1.values[m - 1]),
        ] + entries(nodes1, nv1.children[m] as int, f));
        assert(pv2.keys[m] == nv1.keys[m - 1] && pv2.values[m] == nv1.values[m - 1]);
        assert(pv2.children[m + 1] == nv1.children[m]);
        assert(entries(nodes3, nv1.children[m] as int, f) == entries(
            nodes1,
            nv1.children[m] as int,
            f,
        ));
        assert(ent_upto(nodes3, pv2, m + 1, f) =~= ent_upto(nodes1, nv1, m, f));
    }
}

/// After splitting full child `p` and rewriting the parent, the parent's
/// subtree is again a well-formed search tree with the same entry sequence.
#[verifier::rlimit(100)]
proof fn lemma_split_parent(
    nodes1: Seq<NodeV>,
    nodes2: Seq<NodeV>,
    nodes3: Seq<NodeV>,
    i: int,
    p: int,
    t: nat,
    k: nat,
    f: nat,
    pv2: NodeV,
    promk: Seq<u8>,
    promv: u64,
)
    requires
        tree_ok(nodes1, i, t, k, f),
        !is_leaf(nodes1[i]),
        0 <= p <= nodes1[i].keys.len(),
        nodes1[i].keys.len() < 2 * t - 1,
        nodes1.len() < 0x4000_0000_0000_0000,
        ({
            let nv1 = nodes1[i];
            let n1 = nv1.keys.len() as int;
            let c = nv1.children[p] as int;
            let len1 = nodes1.len() as int;
            let fc = (f - 1) as nat;
            &&& nodes2.len() == len1 + 1
            &&& (forall|j: int| 0 <= j < len1 && j != c ==> nodes2[j] == nodes1[j])
            &&& tree_ok(nodes2, c, t, k, fc)
            &&& tree_ok(nodes2, len1, t, k, fc)
            &&& entries(nodes2, c, fc) + seq![(promk, promv)] + entries(nodes2, len1, fc)
                == entries(nodes1, c, fc)
            &&& all_keys_le(entries(nodes2, c, fc), promk)
            &&& all_keys_ge(entries(nodes2, len1, fc), promk)
            &&& (forall|x: int|
                reach(nodes2, c, fc).contains(x) ==> reach(nodes1, c, fc).contains(x))
            &&& (forall|x: int|
                reach(nodes2, len1, fc).contains(x) ==> reach(nodes1, c, fc).contains(x) || x
                    == len1)
            &&& reach(nodes2, c, fc).disjoint(reach(nodes2, len1, fc))
            &&& pv2.keys.len() == n1 + 1
            &&& pv2.values.len() == n1 + 1
            &&& pv2.children.len() == nv1.children.len()
            &&& (forall|j: int|
                0 <= j < p ==> #[trigger] pv2.keys[j] == nv1.keys[j] && pv2.values[j]
                    == nv1.values[j])
            &&& pv2.keys[p] == promk && pv2.values[p] == promv
            &&& (forall|j: int|
                p < j < pv2.keys.len() ==> #[trigger] pv2.keys[j] == nv1.keys[j - 1]
                    && pv2.values[j] == nv1.values[j - 1])
            &&& (forall|j: int| 0 <= j <= p ==> #[trigger] pv2.children[j] == nv1.children[j])
            &&& pv2.children[p + 1] == len1 as i64
            &&& (forall|j: int|
                p + 1 < j < pv2.children.len() ==> #[trigger] pv2.children[j] == nv1.children[j
                    - 1])
            &&& node_wf(pv2, t, k, nodes3.len() as int)
            &&& !is_leaf(pv2)
            &&& nodes3.len() == nodes2.len()
            &&& nodes3[i] == pv2
            &&& (forall|j: int| 0 <= j < nodes3.len() && j != i ==> nodes3[j] == nodes2[j])
        }),
    ensures
        tree_ok(nodes3, i, t, k, f),
        entries(nodes3, i, f) == entries(nodes1, i, f),
        forall|x: int|
            reach(nodes3, i, f).contains(x) ==> reach(nodes1, i, f).contains(x) || x
                == nodes1.len(),
        forall|j: int|
            0 <= j < nodes1.len() && !reach(nodes1, i, f).contains(j) ==> nodes3[j] == nodes1[j],
{
    let nv1 = nodes1[i];
    let n1 = nv1.keys.len() as int;
    let c = nv1.children[p] as int;
    let len1 = nodes1.len() as int;
    let fc = (f - 1) as nat;
    lemma_reach_self(nodes1, i, f);
    lemma_reach_self(nodes1, c, fc);
    assert(!(#[trigger] child_reach(nodes1, i, p, fc)).contains(i));
    assert(i != c);

    // untouched siblings framed from the old arena into the new one
    assert forall|j: int| 0 <= j <= n1 && j != p implies tree_ok(
        nodes3,
        (#[trigger] nv1.children[j]) as int,
        t,
        k,
        fc,
    ) && entries(nodes3, nv1.children[j] as int, fc) == entries(nodes1, nv1.children[j] as int, fc)
        && reach(nodes3, nv1.children[j] as int, fc) == reach(
        nodes1,
        nv1.children[j] as int,
        fc,
    ) by {
        lemma_kids_ok_index(nodes1, nv1.children, n1 + 1, t, k, fc, j);
        assert(child_reach(nodes1, i, j, fc).disjoint(child_reach(nodes1, i, p, fc)) || child_reach(
            nodes1,
            i,
            p,
            fc,
        ).disjoint(child_reach(nodes1, i, j, fc)));
        assert forall|y: int|
            reach(nodes1, nv1.children[j] as int, fc).contains(y) implies nodes3[y] == nodes1[y] by {
            lemma_reach_valid(nodes1, nv1.children[j] as int, t, k, fc);
            assert(!reach(nodes1, c, fc).contains(y));
            assert(y != c && y != i && 0 <= y < len1);
        }
        lemma_tree_frame(nodes1, nodes3, nv1.children[j] as int, t, k, fc);
    }

    // the two halves framed across the parent rewrite
    lemma_kids_ok_index(nodes1, nv1.children, n1 + 1, t, k, fc, p);
    lemma_reach_valid(nodes1, c, t, k, fc);
    assert forall|y: int| reach(nodes2, c, fc).contains(y) implies nodes3[y] == nodes2[y] by {
        assert(reach(nodes1, c, fc).contains(y));
        assert(0 <= y < len1);
        assert(y != i);
    }
    lemma_tree_frame(nodes2, nodes3, c, t, k, fc);
    assert forall|y: int| reach(nodes2, len1, fc).contains(y) implies nodes3[y] == nodes2[y] by {
        if y != len1 {
            assert(reach(nodes1, c, fc).contains(y));
            assert(0 <= y < len1);
            assert(y != i);
        } else {
            assert(y != i);
        }
    }
    lemma_tree_frame(nodes2, nodes3, len1, t, k, fc);

    // every child slot of the rewritten parent is a well-formed subtree
    assert forall|s: int| 0 <= s <= n1 + 1 implies tree_ok(
        nodes3,
        (#[trigger] pv2.children[s]) as int,
        t,
        k,
        fc,
    ) by {
        if s < p {
            assert(pv2.children[s] == nv1.children[s]);
        } else if s == p {
            assert(pv2.children[s] == nv1.children[p]);
            assert(pv2.children[s] as int == c);
        } else if s == p + 1 {
            assert(pv2.children[s] == len1 as i64);
            assert(pv2.children[s] as int == len1);
        } else {
            assert(pv2.children[s] == nv1.children[s - 1]);
        }
    }
    lemma_kids_ok_build(nodes3, pv2.children, n1 + 2, t, k, fc);

    // each half's entries sit inside the old child's entries
    assert forall|el: (Seq<u8>, u64)|
        entries(nodes3, c, fc).contains(el) || entries(nodes3, len1, fc).contains(el) implies entries(
        nodes1,
        c,
        fc,
    ).contains(el) by {
        lemma_concat_contains(
            entries(nodes2, c, fc) + seq![(promk, promv)],
            entries(nodes2, len1, fc),
            el,
        );
        lemma_concat_contains(entries(nodes2, c, fc), seq![(promk, promv)], el);
    }

    // ordering of the rewritten parent
    assert forall|j: int| 0 <= j < n1 + 1 implies all_keys_le(
        #[trigger] child_entries(nodes3, i, j, fc),
        pv2.keys[j],
    ) by {
        if j < p {
            assert(child_entries(nodes3, i, j, fc) == child_entries(nodes1, i, j, fc));
            assert(all_keys_le(child_entries(nodes1, i, j, fc), nv1.keys[j]));
        } else if j == p {
            assert(pv2.children[j] as int == c);
            assert(entries(nodes3, c, fc) == entries(nodes2, c, fc));
            assert(child_entries(nodes3, i, j, fc) == entries(nodes2, c, fc));
        } else if j == p + 1 {
            assert(pv2.children[j] as int == len1);
            assert(entries(nodes3, len1, fc) == entries(nodes2, len1, fc));
            assert(child_entries(nodes3, i, j, fc) == entries(nodes2, len1, fc));
            if p + 1 < n1 + 1 {
                assert forall|e: int|
                    0 <= e < entries(nodes2, len1, fc).len() implies lex_le(
                    (#[trigger] entries(nodes2, len1, fc)[e]).0,
                    pv2.keys[j],
                ) by {
                    let el = entries(nodes2, len1, fc)[e];
                    assert(entries(nodes2, len1, fc).contains(el));
                    assert(entries(nodes1, c, fc).contains(el));
                    lemma_all_keys_le_contains(child_entries(nodes1, i, p, fc), nv1.keys[p], el);
                    assert(pv2.keys[j] == nv1.keys[p]);
                }
            }
        } else {
            assert(child_entries(nodes3, i, j, fc) == child_entries(nodes1, i, j - 1, fc));
            assert(all_keys_le(child_entries(nodes1, i, j - 1, fc), nv1.keys[j - 1]));
        }
    }
    assert forall|j: int| 1 <= j <= n1 + 1 implies all_keys_ge(
        #[trigger] child_entries(nodes3, i, j, fc),
        pv2.keys[j - 1],
    ) by {
        if j < p {
            assert(child_entries(nodes3, i, j, fc) == child_entries(nodes1, i, j, fc));
            assert(all_keys_ge(child_entries(nodes1, i, j, fc), nv1.keys[j - 1]));
        } else if j == p {
            assert(pv2.children[j] as int == c);
            assert(entries(nodes3, c, fc) == entries(nodes2, c, fc));
            assert(child_entries(nodes3, i, j, fc) == entries(nodes2, c, fc));
            if p >= 1 {
                assert forall|e: int|
                    0 <= e < entries(nodes2, c, fc).len() implies lex_le(
                    pv2.keys[j - 1],
                    (#[trigger] entries(nodes2, c, fc)[e]).0,
                ) by {
                    let el = entries(nodes2, c, fc)[e];
                    assert(entries(nodes2, c, fc).contains(el));
                    assert(entries(nodes1, c, fc).contains(el));
                    lemma_all_keys_ge_contains(
                        child_entries(nodes1, i, p, fc),
                        nv1.keys[p - 1],
                        el,
                    );
                    assert(pv2.keys[j - 1] == nv1.keys[p - 1]);
                }
            }
        } else if j == p + 1 {
            assert(pv2.children[j] as int == len1);
            assert(entries(nodes3, len1, fc) == entries(nodes2, len1, fc));
            assert(child_entries(nodes3, i, j, fc) == entries(nodes2, len1, fc));
        } else {
            assert(child_entries(nodes3, i, j, fc) == child_entries(nodes1, i, j - 1, fc));
            assert(all_keys_ge(child_entries(nodes1, i, j - 1, fc), nv1.keys[j - 2]));
        }
    }

    // the parent is in no child's reach, and the children stay disjoint
    assert forall|s: int| 0 <= s <= n1 + 1 implies !(#[trigger] child_reach(
        nodes3,
        i,
        s,
        fc,
    )).contains(i) by {
        if s < p {
            assert(child_reach(nodes3, i, s, fc) == child_reach(nodes1, i, s, fc));
        } else if s == p {
            if reach(nodes2, c, fc).contains(i) {
                assert(reach(nodes1, c, fc).contains(i));
            }
        } else if s == p + 1 {
            if reach(nodes2, len1, fc).contains(i) {
                assert(reach(nodes1, c, fc).contains(i) || i == len1);
            }
        } else {
            assert(child_reach(nodes3, i, s, fc) == child_reach(nodes1, i, s - 1, fc));
        }
    }
    assert forall|s1: int, s2: int| 0 <= s1 < s2 <= n1 + 1 implies (#[trigger] child_reach(
        nodes3,
        i,
        s1,
        fc,
    )).disjoint(#[trigger] child_reach(nodes3, i, s2, fc)) by {
        assert forall|y: int|
            child_reach(nodes3, i, s1, fc).contains(y) && child_reach(nodes3, i, s2, fc).contains(
                y,
            ) implies false by {
            // translate each slot to a reach in the old arena (or the fresh node)
            let r1 = child_reach(nodes3, i, s1, fc);
            let r2 = child_reach(nodes3, i, s2, fc);
            let o1: int = if s1 < p { s1 } else if s1 <= p + 1 { p } else { s1 - 1 };
            let o2: int = if s2 < p { s2 } else if s2 <= p + 1 { p } else { s2 - 1 };
            assert(o1 <= o2);
            if s1 < p {
                assert(r1 == child_reach(nodes1, i, s1, fc));
            } else if s1 == p {
                assert(r1 == reach(nodes2, c, fc));
            } else if s1 == p + 1 {
                assert(r1 == reach(nodes2, len1, fc));
            } else {
                assert(r1 == child_reach(nodes1, i, s1 - 1, fc));
            }
            if s2 < p {
                assert(r2 == child_reach(nodes1, i, s2, fc));
            } else if s2 == p {
                assert(r2 == reach(nodes2, c, fc));
            } else if s2 == p + 1 {
                assert(r2 == reach(nodes2, len1, fc));
            } else {
                assert(r2 == child_reach(nodes1, i, s2 - 1, fc));
            }
            if s1 == p && s2 == p + 1 {
                assert(reach(nodes2, c, fc).disjoint(reach(nodes2, len1, fc)));
            } else {
                assert(o1 < o2);
                assert(child_reach(nodes1, i, o1, fc).disjoint(child_reach(nodes1, i, o2, fc)));
                // y belongs to the old reach of slot o1 and of slot o2
                if s1 == p || s1 == p + 1 {
                    assert(reach(nodes1, c, fc).contains(y) || y == len1);
                    if y == len1 {
                        lemma_kids_ok_index(nodes1, nv1.children, n1 + 1, t, k, fc, o2);
                        lemma_reach_valid(nodes1, nv1.children[o2] as int, t, k, fc);
                        assert(child_reach(nodes1, i, o2, fc).contains(y));
                        assert(false);
                    }
                } else {
                    assert(child_reach(nodes1, i, o1, fc).contains(y));
                }
                if s2 == p || s2 == p + 1 {
                    assert(reach(nodes1, c, fc).contains(y) || y == len1);
                    if y == len1 {
                        lemma_kids_ok_index(nodes1, nv1.children, n1 + 1, t, k, fc, o1);
                        lemma_reach_valid(nodes1, nv1.children[o1] as int, t, k, fc);
                        assert(child_reach(nodes1, i, o1, fc).contains(y));
                        assert(false);
                    }
                } else {
                    assert(child_reach(nodes1, i, o2, fc).contains(y));
                }
                assert(child_reach(nodes1, i, o1, fc).contains(y));
                assert(child_reach(nodes1, i, o2, fc).contains(y));
            }
        }
    }
    assert(tree_ok(nodes3, i, t, k, f));

    // entries are exactly preserved
    assert forall|j: int|
        0 <= j <= n1 && j != p implies entries(nodes3, (#[trigger] nv1.children[j]) as int, fc)
        == entries(nodes1, nv1.children[j] as int, fc) by {}
    assert(entries(nodes3, pv2.children[p] as int, fc) == entries(nodes2, c, fc));
    assert(entries(nodes3, pv2.children[p + 1] as int, fc) == entries(nodes2, len1, fc));
    assert forall|j: int| 0 <= j < p implies #[trigger] pv2.values[j] == nv1.values[j] by {
        assert(pv2.keys[j] == nv1.keys[j]);
    }
    assert forall|j: int|
        p < j < pv2.values.len() implies #[trigger] pv2.values[j] == nv1.values[j - 1] by {
        assert(pv2.keys[j] == nv1.keys[j - 1]);
    }
    lemma_split_parent_entries(nodes1, nv1, nodes3, pv2, p, fc, n1);
    assert(entries(nodes3, i, f) == ent_upto(nodes3, pv2, n1 + 1, fc));
    assert(entries(nodes1, i, f) == ent_upto(nodes1, nv1, n1, fc));

    // reach stays within the old subtree plus the fresh node
    assert forall|x: int|
        reach(nodes3, i, f).contains(x) implies reach(nodes1, i, f).contains(x) || x == len1 by {
        if x != i {
            assert(kids_reach(nodes3, pv2.children, n1 + 2, fc).contains(x));
            lemma_kids_reach_elem(nodes3, pv2.children, n1 + 2, fc, x);
            let s = choose|s: int|
                0 <= s < n1 + 2 && reach(nodes3, (#[trigger] pv2.children[s]) as int, fc).contains(
                    x,
                );
            let o: int = if s < p { s } else if s <= p + 1 { p } else { s - 1 };
            if s == p {
                assert(reach(nodes2, c, fc).contains(x));
                assert(reach(nodes1, c, fc).contains(x));
                lemma_kids_reach_sub(nodes1, nv1.children, n1 + 1, fc, p);
            } else if s == p + 1 {
                assert(reach(nodes2, len1, fc).contains(x));
                if x != len1 {
                    assert(reach(nodes1, c, fc).contains(x));
                    lemma_kids_reach_sub(nodes1, nv1.children, n1 + 1, fc, p);
                }
            } else {
                assert(reach(nodes1, nv1.children[o] as int, fc).contains(x));
                lemma_kids_reach_sub(nodes1, nv1.children, n1 + 1, fc, o);
            }
        }
    }
    // everything outside the old parent subtree is untouched
    assert forall|j: int|
        0 <= j < len1 && !reach(nodes1, i, f).contains(j) implies nodes3[j] == nodes1[j] by {
        lemma_kids_reach_sub(nodes1, nv1.children, n1 + 1, fc, p);
        assert(j != i);
        if j == c {
            assert(reach(nodes1, i, f).contains(c));
        }
    }
}

/// After an insertion into the subtree of child `ci`, the parent's subtree is
/// again a well-formed search tree holding exactly one more pair.
#[verifier::rlimit(100)]
proof fn lemma_parent_reassemble(
    nodesa: Seq<NodeV>,
    nodesb: Seq<NodeV>,
    i: int,
    ci: int,
    t: nat,
    k: nat,
    f: nat,
    x: (Seq<u8>, u64),
)
    requires
        tree_ok(nodesa, i, t, k, f),
        !is_leaf(nodesa[i]),
        0 <= ci <= nodesa[i].keys.len(),
        nodesa.len() <= nodesb.len(),
        nodesb[i] == nodesa[i],
        tree_ok(nodesb, (nodesa[i].children[ci]) as int, t, k, (f - 1) as nat),
        entries(nodesb, (nodesa[i].children[ci]) as int, (f - 1) as nat).to_multiset() == entries(
            nodesa,
            (nodesa[i].children[ci]) as int,
            (f - 1) as nat,
        ).to_multiset().insert(x),
        forall|j: int|
            0 <= j < nodesa.len() && !reach(
                nodesa,
                (nodesa[i].children[ci]) as int,
                (f - 1) as nat,
            ).contains(j) ==> nodesb[j] == nodesa[j],
        forall|y: int|
            #[trigger] reach(nodesb, (nodesa[i].children[ci]) as int, (f - 1) as nat).contains(y)
                ==> reach(nodesa, (nodesa[i].children[ci]) as int, (f - 1) as nat).contains(y)
                || nodesa.len() <= y < nodesb.len(),
        ci > 0 ==> lex_le(nodesa[i].keys[ci - 1], x.0),
        ci < nodesa[i].keys.len() ==> lex_le(x.0, nodesa[i].keys[ci]),
        arena_wf(nodesb, t, k),
    ensures
        tree_ok(nodesb, i, t, k, f),
        entries(nodesb, i, f).to_multiset() == entries(nodesa, i, f).to_multiset().insert(x),
        forall|y: int|
            reach(nodesb, i, f).contains(y) ==> reach(nodesa, i, f).contains(y) || nodesa.len()
                <= y < nodesb.len(),
        forall|j: int|
            0 <= j < nodesa.len() && !reach(nodesa, i, f).contains(j) ==> nodesb[j] == nodesa[j],
{
    broadcast use vstd::seq_lib::group_to_multiset_ensures;
    broadcast use vstd::multiset::group_multiset_axioms;

    let nv = nodesa[i];
    let n = nv.keys.len() as int;
    let fc = (f - 1) as nat;
    let cci = nv.children[ci] as int;
    let lena = nodesa.len() as int;
    lemma_reach_self(nodesa, i, f);
    lemma_reach_self(nodesa, cci, fc);

    // siblings are untouched by the insertion
    assert forall|j: int| 0 <= j <= n && j != ci implies tree_ok(
        nodesb,
        (#[trigger] nv.children[j]) as int,
        t,
        k,
        fc,
    ) && entries(nodesb, nv.children[j] as int, fc) == entries(nodesa, nv.children[j] as int, fc)
        && reach(nodesb, nv.children[j] as int, fc) == reach(nodesa, nv.children[j] as int, fc) by {
        lemma_kids_ok_index(nodesa, nv.children, n + 1, t, k, fc, j);
        assert(child_reach(nodesa, i, j, fc).disjoint(child_reach(nodesa, i, ci, fc)) || child_reach(
            nodesa,
            i,
            ci,
            fc,
        ).disjoint(child_reach(nodesa, i, j, fc)));
        assert forall|y: int|
            reach(nodesa, nv.children[j] as int, fc).contains(y) implies nodesb[y] == nodesa[y] by {
            lemma_reach_valid(nodesa, nv.children[j] as int, t, k, fc);
            assert(!reach(nodesa, cci, fc).contains(y));
        }
        lemma_tree_frame(nodesa, nodesb, nv.children[j] as int, t, k, fc);
    }
    // every child is a well-formed search tree again
    assert forall|j: int| 0 <= j <= n implies tree_ok(
        nodesb,
        (#[trigger] nv.children[j]) as int,
        t,
        k,
        fc,
    ) by {
        if j != ci {
        }
    }
    lemma_kids_ok_build(nodesb, nv.children, n + 1, t, k, fc);

    // bounds on the changed child's new entries
    assert forall|e: int|
        0 <= e < entries(nodesb, cci, fc).len() implies entries(nodesa, cci, fc).contains(
        #[trigger] entries(nodesb, cci, fc)[e],
    ) || entries(nodesb, cci, fc)[e] == x by {
        let el = entries(nodesb, cci, fc)[e];
        assert(entries(nodesb, cci, fc).contains(el));
        assert(entries(nodesb, cci, fc).to_multiset().count(el) > 0);
        if el != x {
            assert(entries(nodesa, cci, fc).to_multiset().count(el) > 0);
        }
    }
    assert forall|j: int| 0 <= j < n implies all_keys_le(
        #[trigger] child_entries(nodesb, i, j, fc),
        nv.keys[j],
    ) by {
        if j != ci {
            assert(child_entries(nodesb, i, j, fc) == child_entries(nodesa, i, j, fc));
            assert(all_keys_le(child_entries(nodesa, i, j, fc), nv.keys[j]));
        } else {
            assert forall|e: int|
                0 <= e < child_entries(nodesb, i, j, fc).len() implies lex_le(
                (#[trigger] child_entries(nodesb, i, j, fc)[e]).0,
                nv.keys[j],
            ) by {
                let el = child_entries(nodesb, i, j, fc)[e];
                if el == x {
                } else {
                    assert(entries(nodesa, cci, fc).contains(el));
                    lemma_all_keys_le_contains(child_entries(nodesa, i, j, fc), nv.keys[j], el);
                }
            }
        }
    }
    assert forall|j: int| 1 <= j <= n implies all_keys_ge(
        #[trigger] child_entries(nodesb, i, j, fc),
        nv.keys[j - 1],
    ) by {
        if j != ci {
            assert(child_entries(nodesb, i, j, fc) == child_entries(nodesa, i, j, fc));
            assert(all_keys_ge(child_entries(nodesa, i, j, fc), nv.keys[j - 1]));
        } else {
            assert forall|e: int|
                0 <= e < child_entries(nodesb, i, j, fc).len() implies lex_le(
                nv.keys[j - 1],
                (#[trigger] child_entries(nodesb, i, j, fc)[e]).0,
            ) by {
                let el = child_entries(nodesb, i, j, fc)[e];
                if el == x {
                } else {
                    assert(entries(nodesa, cci, fc).contains(el));
                    lemma_all_keys_ge_contains(child_entries(nodesa, i, j, fc), nv.keys[j - 1], el);
                }
            }
        }
    }

    // reach bookkeeping
    assert forall|j: int| 0 <= j <= n implies !(#[trigger] child_reach(nodesb, i, j, fc)).contains(
        i,
    ) by {
        assert(!(#[trigger] child_reach(nodesa, i, j, fc)).contains(i));
        if j != ci {
            assert(reach(nodesb, nv.children[j] as int, fc) == reach(
                nodesa,
                nv.children[j] as int,
                fc,
            ));
            assert(child_reach(nodesb, i, j, fc) == child_reach(nodesa, i, j, fc));
        } else {
            assert(child_reach(nodesa, i, ci, fc) == reach(nodesa, cci, fc));
            assert(child_reach(nodesb, i, ci, fc) == reach(nodesb, cci, fc));
            if reach(nodesb, cci, fc).contains(i) {
                assert(reach(nodesa, cci, fc).contains(i) || lena <= i);
                assert(0 <= i < lena);
            }
        }
    }
    assert forall|j1: int, j2: int| 0 <= j1 < j2 <= n implies (#[trigger] child_reach(
        nodesb,
        i,
        j1,
        fc,
    )).disjoint(#[trigger] child_reach(nodesb, i, j2, fc)) by {
        assert forall|y: int|
            child_reach(nodesb, i, j1, fc).contains(y) && child_reach(nodesb, i, j2, fc).contains(
                y,
            ) implies false by {
            if j1 != ci && j2 != ci {
                assert(child_reach(nodesb, i, j1, fc) == child_reach(nodesa, i, j1, fc));
                assert(child_reach(nodesb, i, j2, fc) == child_reach(nodesa, i, j2, fc));
                assert(child_reach(nodesa, i, j1, fc).disjoint(child_reach(nodesa, i, j2, fc)));
            } else if j1 == ci {
                assert(child_reach(nodesb, i, j2, fc) == child_reach(nodesa, i, j2, fc));
                lemma_kids_ok_index(nodesa, nv.children, n + 1, t, k, fc, j2);
                lemma_reach_valid(nodesa, nv.children[j2] as int, t, k, fc);
                assert(reach(nodesa, cci, fc).contains(y) || lena <= y);
                assert(child_reach(nodesa, i, j1, fc).disjoint(child_reach(nodesa, i, j2, fc)));
            } else {
                assert(child_reach(nodesb, i, j1, fc) == child_reach(nodesa, i, j1, fc));
                lemma_kids_ok_index(nodesa, nv.children, n + 1, t, k, fc, j1);
                lemma_reach_valid(nodesa, nv.children[j1] as int, t, k, fc);
                assert(reach(nodesa, cci, fc).contains(y) || lena <= y);
                assert(child_reach(nodesa, i, j1, fc).disjoint(child_reach(nodesa, i, j2, fc)));
            }
        }
    }
    assert(node_wf(nodesb[i], t, k, nodesb.len() as int));
    assert(tree_ok(nodesb, i, t, k, f));

    // the entry multiset grew by exactly the new pair
    assert forall|j: int|
        0 <= j <= n && j != ci implies entries(nodesb, (#[trigger] nv.children[j]) as int, fc)
        == entries(nodesa, nv.children[j] as int, fc) by {}
    lemma_ent_upto_ms(nodesa, nodesb, nv, n, fc, ci, x);
    assert(entries(nodesb, i, f) == ent_upto(nodesb, nv, n, fc));
    assert(entries(nodesa, i, f) == ent_upto(nodesa, nv, n, fc));

    // reach stays within the old subtree plus freshly appended nodes
    assert forall|y: int|
        reach(nodesb, i, f).contains(y) implies reach(nodesa, i, f).contains(y) || lena <= y
            < nodesb.len() by {
        if y != i {
            assert(kids_reach(nodesb, nv.children, n + 1, fc).contains(y));
            lemma_kids_reach_elem(nodesb, nv.children, n + 1, fc, y);
            let j = choose|j: int|
                0 <= j < n + 1 && reach(nodesb, (#[trigger] nv.children[j]) as int, fc).contains(y);
            if j != ci {
                assert(reach(nodesa, nv.children[j] as int, fc).contains(y));
                lemma_kids_reach_sub(nodesa, nv.children, n + 1, fc, j);
            } else {
                if reach(nodesa, cci, fc).contains(y) {
                    lemma_kids_reach_sub(nodesa, nv.children, n + 1, fc, j);
                }
            }
        }
    }
    // anything outside the old subtree is untouched
    assert forall|j: int|
        0 <= j < lena && !reach(nodesa, i, f).contains(j) implies nodesb[j] == nodesa[j] by {
        lemma_kids_reach_sub(nodesa, nv.children, n + 1, fc, ci);
        if reach(nodesa, cci, fc).contains(j) {
            assert(reach(nodesa, i, f).contains(j));
        }
    }
}

impl Index {
    /// Descend from the non-full node at arena position `idx` and place
    /// `(pk, value)` in the subtree, pre-splitting any full child met on the
    /// way down.  Equal keys go to the right of the ones already stored.
    #[verifier::rlimit(100)]
    fn insert_non_full(&mut self, idx: usize, pk: Vec<u8>, value: u64, Ghost(f): Ghost<nat>)
        requires
            2 <= old(self)@.t <= 0x4000_0000,
            old(self)@.keysize <= 0xFFFF,
            arena_wf(old(self)@.nodes, old(self)@.t, old(self)@.keysize),
            idx < old(self)@.nodes.len(),
            tree_ok(old(self)@.nodes, idx as int, old(self)@.t, old(self)@.keysize, f),
            old(self)@.nodes[idx as int].keys.len() < 2 * old(self)@.t - 1,
            pk@.len() == old(self)@.keysize,
            old(self)@.nodes.len() + f <= 0x4000_0000_0000_0000,
        ensures
            ({
                let t = old(self)@.t;
                let k = old(self)@.keysize;
                let nodes1 = old(self)@.nodes;
                let len1 = nodes1.len() as int;
                let nodes2 = final(self)@.nodes;
                &&& final(self)@.t == t && final(self)@.keysize == k && final(self)@.root == old(
                    self,
                )@.root
                &&& len1 <= nodes2.len() <= len1 + f
                &&& arena_wf(nodes2, t, k)
                &&& tree_ok(nodes2, idx as int, t, k, f)
                &&& entries(nodes2, idx as int, f).to_multiset() == entries(
                    nodes1,
                    idx as int,
                    f,
                ).to_multiset().insert((pk@, value))
                &&& (forall|j: int|
                    0 <= j < len1 && !reach(nodes1, idx as int, f).contains(j)
                        ==> nodes2[j] == nodes1[j])
                &&& (forall|x: int|
                    reach(nodes2, idx as int, f).contains(x) ==> reach(nodes1, idx as int, f)
                        .contains(x) || len1 <= x < nodes2.len())
                &&& nodes2.len() + arena_excess(nodes2, t) <= len1 + arena_excess(nodes1, t) + 1
                &&& (!is_leaf(nodes1[idx as int]) ==> nodes2[idx as int].children[0] == nodes1[idx
                    as int].children[0])
                &&& nodes2[idx as int].keys.len() >= nodes1[idx as int].keys.len()
                &&& ((!is_leaf(nodes1[idx as int]) && (forall|j: int|
                    0 <= j <= nodes1[idx as int].keys.len() ==> nodes1[(#[trigger] nodes1[idx
                        as int].children[j]) as int].keys.len() < 2 * t - 1))
                    ==> nodes2[idx as int] == nodes1[idx as int])
            }),
        decreases f,
    {
        broadcast use vstd::seq_lib::to_multiset_insert;
        broadcast use vstd::seq_lib::group_to_multiset_ensures;

        let ghost t_s = self@.t;
        let ghost k_s = self@.keysize;
        let ghost nodes1 = self@.nodes;
        let ghost nv1 = nodes1[idx as int];
        let ghost len1 = nodes1.len() as int;
        let ghost fc = (f - 1) as nat;
        let ghost n1 = nv1.keys.len() as int;
        let ghost pkv = pk@;
        let t = self.t as usize;
        let num = self.nodes.len();
        let leaf = self.nodes[idx].children[0] == -1;
        proof {
            lemma_reach_self(nodes1, idx as int, f);
        }
        if leaf {
            let node = &self.nodes[idx];
            proof {
                assert(node@ == nv1);
                assert(forall|i: int|
                    0 <= i < node.keys@.len() ==> #[trigger] node.keys@[i]@ == nv1.keys[i]);
            }
            let p = upper_bound(&node.keys, &pk);
            let mut keys2 = sub_keys(&node.keys, 0, node.keys.len());
            let mut vals2 = sub_vals(&node.values, 0, node.values.len());
            keys2.insert(p, pk);
            vals2.insert(p, value);
            let children2 = neg_ones(2 * t);
            let newnode = Node { keys: keys2, values: vals2, children: children2 };
            let ghost nv2 = newnode@;
            self.nodes.set(idx, newnode);
            proof {
                let nodes2 = self@.nodes;
                assert(nodes2.len() == len1);
                assert(forall|j: int| 0 <= j < len1 && j != idx ==> nodes2[j] == nodes1[j]);
                assert(nodes2[idx as int] == nv2);
                assert(nv2.keys.len() == n1 + 1);
                assert(forall|j: int| 0 <= j < p ==> #[trigger] nv2.keys[j] == nv1.keys[j]);
                assert(nv2.keys[p as int] == pkv);
                assert(forall|j: int|
                    p < j < n1 + 1 ==> #[trigger] nv2.keys[j] == nv1.keys[j - 1]);
                assert(forall|j: int| 0 <= j < p ==> #[trigger] nv2.values[j] == nv1.values[j]);
                assert(nv2.values[p as int] == value);
                assert(forall|j: int|
                    p < j < n1 + 1 ==> #[trigger] nv2.values[j] == nv1.values[j - 1]);
                assert(is_leaf(nv2));
                // the new node is structurally sound
                assert(node_wf(nv2, t_s, k_s, len1)) by {
                    assert forall|a: int, b: int| 0 <= a <= b < n1 + 1 implies lex_le(
                        nv2.keys[a],
                        nv2.keys[b],
                    ) by {
                        if b < p {
                            assert(lex_le(nv1.keys[a], nv1.keys[b]));
                        } else if b == p {
                            if a < p {
                                assert(lex_le(nv1.keys[a], pkv));
                            } else {
                                lemma_lex_le_refl(pkv);
                            }
                        } else {
                            if a < p {
                                assert(lex_le(nv1.keys[a], nv1.keys[b - 1]));
                            } else if a == p {
                                assert(!lex_le(nv1.keys[b - 1], pkv));
                                lemma_lex_le_total(pkv, nv1.keys[b - 1]);
                            } else {
                                assert(lex_le(nv1.keys[a - 1], nv1.keys[b - 1]));
                            }
                        }
                    }
                }
                assert(tree_ok(nodes2, idx as int, t_s, k_s, f));
                // the pairs grew by exactly the new one
                assert(pairs(nv2) =~= pairs(nv1).insert(p as int, (pkv, value)));
                assert(pairs(nv1).insert(p as int, (pkv, value)).to_multiset() == pairs(
                    nv1,
                ).to_multiset().insert((pkv, value)));
                assert(entries(nodes2, idx as int, f) == pairs(nv2));
                assert(entries(nodes1, idx as int, f) == pairs(nv1));
                // frame and reach
                assert(reach(nodes2, idx as int, f) =~= set!{idx as int});
                assert(nodes2 =~= nodes1.update(idx as int, nv2));
                lemma_excess_update(nodes1, idx as int, nv2, t_s);
                assert(node_excess(nv2, t_s) <= node_excess(nv1, t_s) + 1);
                assert forall|j: int| 0 <= j < nodes2.len() implies node_wf(
                    #[trigger] nodes2[j],
                    t_s,
                    k_s,
                    nodes2.len() as int,
                ) by {
                    if j != idx {
                        assert(node_wf(nodes1[j], t_s, k_s, len1));
                    }
                }
            }
        } else {
            let ghost children1 = nv1.children;
            let node = &self.nodes[idx];
            proof {
                assert(node@ == nv1);
                assert(forall|i: int|
                    0 <= i < node.keys@.len() ==> #[trigger] node.keys@[i]@ == nv1.keys[i]);
            }
            let p = upper_bound(&node.keys, &pk);
            let c_i64 = node.children[p];
            proof {
                assert(node.children@ == nv1.children);
                assert(node.values@ == nv1.values);
                assert(c_i64 == nv1.children[p as int]);
                assert(child_ok(nv1.children[p as int], len1));
                assert(num as int == len1);
                assert(0 <= c_i64 && (c_i64 as int) < num as int);
            }
            let c = c_i64 as usize;
            proof {
                assert(c as int == nv1.children[p as int] as int);
            }
            let child_full = self.nodes[c].keys.len() == 2 * t - 1;
            proof {
                lemma_kids_ok_index(nodes1, children1, n1 + 1, t_s, k_s, fc, p as int);
                assert(tree_ok(nodes1, c as int, t_s, k_s, fc));
            }
            if child_full {
                let mut pnode = copy_node(&self.nodes[idx]);
                proof {
                    assert(pnode@ == nv1);
                }
                self.split_child(&mut pnode, p, c, Ghost(fc));
                let ghost nodes2 = self@.nodes;
                let ghost pv2 = pnode@;
                let ghost yv = nodes1[c as int];
                let ghost promk = yv.keys[t_s - 1];
                let ghost promv = yv.values[t_s - 1];
                let mut ci: usize = p;
                if !bytes_le(&pk, &pnode.keys[p]) {
                    ci = p + 1;
                }
                proof {
                    assert(pnode.keys@[p as int]@ == pv2.keys[p as int]);
                    assert(pv2.keys[p as int] == promk);
                }
                let cc_i64 = pnode.children[ci];
                self.nodes.set(idx, pnode);
                let ghost nodes3 = self@.nodes;
                proof {
                    // the parent slot now holds pv2; everything else kept
                    assert(nodes3 =~= nodes2.update(idx as int, pv2));
                    assert(nodes3.len() == len1 + 1);
                    // which child we descend into
                    assert(pv2.children[p as int] == nv1.children[p as int]);
                    assert(pv2.children[p as int + 1] == len1 as i64);
                    assert(cc_i64 == pv2.children[ci as int]);
                    if ci == p {
                        assert(cc_i64 == c_i64);
                    } else {
                        assert(cc_i64 == len1 as i64);
                    }
                    // idx lies in no child subtree of the old parent
                    assert(!(#[trigger] child_reach(nodes1, idx as int, p as int, fc)).contains(
                        idx as int,
                    ));
                    // frame the two halves across the parent write
                    assert(c != idx) by {
                        lemma_reach_self(nodes1, c as int, fc);
                    }
                    lemma_reach_valid(nodes1, c as int, t_s, k_s, fc);
                    assert forall|x: int|
                        reach(nodes2, c as int, fc).contains(x) implies nodes3[x] == nodes2[x] by {
                        assert(reach(nodes1, c as int, fc).contains(x));
                        assert(0 <= x < len1);
                        assert(x != idx);
                    }
                    lemma_tree_frame(nodes2, nodes3, c as int, t_s, k_s, fc);
                    assert forall|x: int|
                        reach(nodes2, len1, fc).contains(x) implies nodes3[x] == nodes2[x] by {
                        if x != len1 {
                            assert(reach(nodes1, c as int, fc).contains(x));
                            assert(0 <= x < len1);
                            assert(x != idx);
                        } else {
                            assert(x != idx);
                        }
                    }
                    lemma_tree_frame(nodes2, nodes3, len1, t_s, k_s, fc);
                    // arena-wide soundness after the parent write
                    assert(node_wf(pv2, t_s, k_s, nodes3.len() as int)) by {
                        assert(!is_leaf(pv2));
                        assert forall|a: int, b: int| 0 <= a <= b < n1 + 1 implies lex_le(
                            pv2.keys[a],
                            pv2.keys[b],
                        ) by {
                            assert(child_entries(nodes1, idx as int, p as int, fc) == entries(
                                nodes1,
                                c as int,
                                fc,
                            ));
                            if (p as int) < n1 {
                                assert(all_keys_le(
                                    child_entries(nodes1, idx as int, p as int, fc),
                                    nv1.keys[p as int],
                                ));
                                lemma_all_keys_le_contains(
                                    child_entries(nodes1, idx as int, p as int, fc),
                                    nv1.keys[p as int],
                                    (promk, promv),
                                );
                            }
                            if 1 <= p {
                                assert(all_keys_ge(
                                    child_entries(nodes1, idx as int, p as int, fc),
                                    nv1.keys[p as int - 1],
                                ));
                                lemma_all_keys_ge_contains(
                                    child_entries(nodes1, idx as int, p as int, fc),
                                    nv1.keys[p as int - 1],
                                    (promk, promv),
                                );
                            }
                            if b < p {
                                assert(lex_le(nv1.keys[a], nv1.keys[b]));
                            } else if b == p {
                                if a < p {
                                    assert(lex_le(nv1.keys[a], nv1.keys[p as int - 1]));
                                    lemma_lex_le_trans(nv1.keys[a], nv1.keys[p as int - 1], promk);
                                } else {
                                    lemma_lex_le_refl(promk);
                                }
                            } else {
                                if a < p {
                                    assert(lex_le(nv1.keys[a], nv1.keys[b - 1]));
                                } else if a == p {
                                    assert(p < n1 + 1);
                                    assert(b - 1 >= p);
                                    assert(lex_le(nv1.keys[p as int], nv1.keys[b - 1]));
                                    lemma_lex_le_trans(promk, nv1.keys[p as int], nv1.keys[b - 1]);
                                } else {
                                    assert(lex_le(nv1.keys[a - 1], nv1.keys[b - 1]));
                                }
                            }
                        }
                        assert forall|s: int| 0 <= s <= n1 + 1 implies child_ok(
                            #[trigger] pv2.children[s],
                            nodes3.len() as int,
                        ) by {
                            if s <= p {
                                assert(child_ok(nv1.children[s], len1));
                            } else if s == p + 1 {
                            } else {
                                assert(child_ok(nv1.children[s - 1], len1));
                            }
                        }
                        assert forall|s: int| n1 + 1 < s < 2 * t_s implies pv2.children[s]
                            == -1i64 by {
                            assert(nv1.children[s - 1] == -1i64);
                        }
                    }
                    assert forall|j: int| 0 <= j < nodes3.len() implies node_wf(
                        #[trigger] nodes3[j],
                        t_s,
                        k_s,
                        nodes3.len() as int,
                    ) by {
                        if j != idx {
                            assert(node_wf(nodes2[j], t_s, k_s, nodes2.len() as int));
                        }
                    }
                    // the parent write costs at most one unit of budget
                    lemma_excess_update(nodes2, idx as int, pv2, t_s);
                    assert(nodes2[idx as int] == nv1);
                    assert(node_excess(pv2, t_s) <= node_excess(nv1, t_s) + 1);
                    assert(nodes3.len() + arena_excess(nodes3, t_s) <= len1 + arena_excess(
                        nodes1,
                        t_s,
                    ) + 3 - t_s);
                    // requirements of the recursive call
                    if ci == p {
                        assert(tree_ok(nodes3, cc_i64 as int, t_s, k_s, fc));
                        assert(nodes3[cc_i64 as int].keys.len() == t_s - 1);
                    } else {
                        assert(tree_ok(nodes3, cc_i64 as int, t_s, k_s, fc));
                        assert(nodes3[cc_i64 as int].keys.len() == t_s - 1);
                    }
                }
                let cc = cc_i64 as usize;
                self.insert_non_full(cc, pk, value, Ghost(fc));
                proof {
                    let nodes4 = self@.nodes;
                    let len4 = nodes4.len() as int;
                    let x = (pkv, value);
                    // the parent subtree after the split, before the descent
                    lemma_split_parent(
                        nodes1,
                        nodes2,
                        nodes3,
                        idx as int,
                        p as int,
                        t_s,
                        k_s,
                        f,
                        pv2,
                        promk,
                        promv,
                    );
                    // the new pair fits between the bracketing keys of slot ci
                    if ci > 0 {
                        if ci == p {
                            assert(pv2.keys[ci as int - 1] == nv1.keys[p as int - 1]);
                            assert(lex_le(nv1.keys[p as int - 1], pkv));
                        } else {
                            assert(pv2.keys[ci as int - 1] == promk);
                            lemma_lex_le_total(pkv, promk);
                        }
                        assert(lex_le(pv2.keys[ci as int - 1], x.0));
                    }
                    if (ci as int) < n1 + 1 {
                        if ci == p {
                            assert(pv2.keys[ci as int] == promk);
                            assert(lex_le(pkv, promk));
                        } else {
                            assert(pv2.keys[ci as int] == nv1.keys[p as int]);
                            assert(!lex_le(nv1.keys[p as int], pkv));
                            lemma_lex_le_total(pkv, nv1.keys[p as int]);
                        }
                        assert(lex_le(x.0, pv2.keys[ci as int]));
                    }
                    // the parent node survived the descent untouched
                    assert(!reach(nodes3, cc as int, fc).contains(idx as int)) by {
                        assert(!(#[trigger] child_reach(nodes3, idx as int, ci as int, fc))
                            .contains(idx as int));
                    }
                    assert(nodes4[idx as int] == pv2);
                    lemma_parent_reassemble(nodes3, nodes4, idx as int, ci as int, t_s, k_s, f, x);
                    // chain the pieces into the postcondition
                    assert(entries(nodes4, idx as int, f).to_multiset() == entries(
                        nodes1,
                        idx as int,
                        f,
                    ).to_multiset().insert(x));
                    assert forall|y: int|
                        reach(nodes4, idx as int, f).contains(y) implies reach(
                        nodes1,
                        idx as int,
                        f,
                    ).contains(y) || len1 <= y < len4 by {
                        if reach(nodes3, idx as int, f).contains(y) {
                            assert(reach(nodes1, idx as int, f).contains(y) || y == len1);
                        }
                    }
                    assert forall|j: int|
                        0 <= j < len1 && !reach(nodes1, idx as int, f).contains(j) implies nodes4[j]
                        == nodes1[j] by {
                        assert(nodes3[j] == nodes1[j]);
                        assert(!reach(nodes3, idx as int, f).contains(j));
                    }
                    assert(len1 <= len4 <= len1 + f);
                    assert(nodes4.len() + arena_excess(nodes4, t_s) <= len1 + arena_excess(
                        nodes1,
                        t_s,
                    ) + 1);
                    assert(nodes4[idx as int].children[0] == nv1.children[0]);
                    assert(nodes4[idx as int].keys.len() >= nv1.keys.len());
                }
            } else {
                proof {
                    assert(nodes1[c as int].keys.len() < 2 * t_s - 1) by {
                        assert(node_wf(nodes1[c as int], t_s, k_s, len1));
                    }
                    assert(c != idx) by {
                        lemma_reach_self(nodes1, c as int, fc);
                        assert(!(#[trigger] child_reach(nodes1, idx as int, p as int, fc)).contains(
                            idx as int,
                        ));
                    }
                }
                self.insert_non_full(c, pk, value, Ghost(fc));
                proof {
                    let nodes4 = self@.nodes;
                    let x = (pkv, value);
                    assert(!reach(nodes1, c as int, fc).contains(idx as int)) by {
                        assert(!(#[trigger] child_reach(nodes1, idx as int, p as int, fc)).contains(
                            idx as int,
                        ));
                    }
                    assert(nodes4[idx as int] == nv1);
                    if p > 0 {
                        assert(lex_le(nv1.keys[p as int - 1], pkv));
                    }
                    if (p as int) < n1 {
                        assert(!lex_le(nv1.keys[p as int], pkv));
                        lemma_lex_le_total(pkv, nv1.keys[p as int]);
                        assert(lex_le(x.0, nv1.keys[p as int]));
                    }
                    lemma_parent_reassemble(nodes1, nodes4, idx as int, p as int, t_s, k_s, f, x);
                    assert(nodes4[idx as int].children[0] == nv1.children[0]);
                    assert(nodes4[idx as int].keys.len() >= nv1.keys.len());
                }
            }
        }
    }
}

/// A node's byte size on disk: count, `2t-1` key/value slots, `2t` children.
pub open spec fn node_size(t: nat, k: nat) -> int {
    4 + (2 * t - 1) * (k + 8) + 2 * t * 8
}

/// The byte offset of arena position `j` in the index file.
pub open spec fn node_off(j: int, t: nat, k: nat) -> int {
    14 + j * node_size(t, k)
}

/// `n` zero bytes.
pub open spec fn zero_seq(n: nat) -> Seq<u8> {
    Seq::new(n, |i: int| 0u8)
}

/// The u64 stored in a child slot: the child's byte offset, or all ones for
/// the two's-complement `-1` of an absent child.
pub open spec fn child_field(c: i64, t: nat, k: nat) -> nat {
    if c < 0 {
        0xFFFF_FFFF_FFFF_FFFF
    } else {
        node_off(c as int, t, k) as nat
    }
}

/// Key/value slot `j` on disk: the key bytes then the value, or zeroes for a
/// dead slot.
pub open spec fn slot_bytes(nv: NodeV, j: int, k: nat) -> Seq<u8> {
    if 0 <= j < nv.keys.len() {
        nv.keys[j] + le_bytes(nv.values[j] as nat, 8)
    } else {
        zero_seq((k + 8) as nat)
    }
}

/// The first `m` key/value slots, concatenated.
pub open spec fn slots_upto(nv: NodeV, m: int, k: nat) -> Seq<u8>
    decreases m,
{
    if m <= 0 {
        Seq::empty()
    } else {
        slots_upto(nv, m - 1, k) + slot_bytes(nv, m - 1, k)
    }
}

/// The first `m` child slots, concatenated.
pub open spec fn kids_upto(nv: NodeV, m: int, t: nat, k: nat) -> Seq<u8>
    decreases m,
{
    if m <= 0 {
        Seq::empty()
    } else {
        kids_upto(nv, m - 1, t, k) + le_bytes(child_field(nv.children[m - 1], t, k), 8)
    }
}

/// One node's exact bytes: `n`, the key/value slots, the child slots.
pub open spec fn node_bytes(nv: NodeV, t: nat, k: nat) -> Seq<u8> {
    le_bytes(nv.keys.len(), 4) + slots_upto(nv, 2 * t - 1, k) + kids_upto(nv, 2 * t as int, t, k)
}

/// The packed bytes of arena positions `0..m`.
pub open spec fn arena_bytes(nodes: Seq<NodeV>, m: int, t: nat, k: nat) -> Seq<u8>
    decreases m,
{
    if m <= 0 {
        Seq::empty()
    } else {
        arena_bytes(nodes, m - 1, t, k) + node_bytes(nodes[m - 1], t, k)
    }
}

/// The whole index file: 14-byte header, then the packed node arena.
pub open spec fn index_bytes(iv: IndexV) -> Seq<u8> {
    le_bytes(iv.t, 4) + le_bytes(node_off(iv.root, iv.t, iv.keysize) as nat, 8) + le_bytes(
        iv.keysize,
        2,
    ) + arena_bytes(iv.nodes, iv.nodes.len() as int, iv.t, iv.keysize)
}

impl IndexV {
    /// The index file's total size.
    pub open spec fn file_size(self) -> int {
        node_off(self.nodes.len() as int, self.t, self.keysize)
    }

    /// The file's offsets fit the unsigned 64-bit fields of the header.
    pub open spec fn file_fits(self) -> bool {
        self.file_size() <= 0xFFFF_FFFF_FFFF_FFFF
    }
}

/// The structural facts the fixed layout forces on a parsed node: slot
/// counts, key widths, and children naming arena positions or `-1`.
pub open spec fn node_shaped(nv: NodeV, t: nat, k: nat, num: int) -> bool {
    &&& nv.keys.len() <= 2 * t - 1
    &&& nv.values.len() == nv.keys.len()
    &&& nv.children.len() == 2 * t
    &&& (forall|i: int| 0 <= i < nv.keys.len() ==> (#[trigger] nv.keys[i]).len() == k)
    &&& (forall|i: int|
        0 <= i < nv.children.len() ==> -1 <= #[trigger] nv.children[i] && (nv.children[i] as int)
            < num)
}

/// The same, over a whole index image.
pub open spec fn arena_shaped(iv: IndexV) -> bool {
    &&& 2 <= iv.t <= 0x4000_0000
    &&& iv.keysize <= 0xFFFF
    &&& 1 <= iv.nodes.len()
    &&& 0 <= iv.root < iv.nodes.len()
    &&& (forall|j: int|
        0 <= j < iv.nodes.len() ==> node_shaped(
            #[trigger] iv.nodes[j],
            iv.t,
            iv.keysize,
            iv.nodes.len() as int,
        ))
}

/// A well-formed index is in particular shaped as its image demands.
pub proof fn lemma_wf_shaped(iv: IndexV)
    requires
        iv.wf(),
    ensures
        arena_shaped(iv),
{
    assert forall|j: int| 0 <= j < iv.nodes.len() implies node_shaped(
        #[trigger] iv.nodes[j],
        iv.t,
        iv.keysize,
        iv.nodes.len() as int,
    ) by {
        let nv = iv.nodes[j];
        assert(node_wf(nv, iv.t, iv.keysize, iv.nodes.len() as int));
        assert forall|i: int| 0 <= i < nv.children.len() implies -1 <= #[trigger] nv.children[i]
            && (nv.children[i] as int) < iv.nodes.len() by {
            if is_leaf(nv) {
                assert(nv.children[i] == -1i64);
            } else {
                if i <= nv.keys.len() {
                    assert(child_ok(nv.children[i], iv.nodes.len() as int));
                } else {
                    assert(nv.children[i] == -1i64);
                }
            }
        }
    }
}

pub proof fn lemma_slots_upto_len(nv: NodeV, m: int, k: nat)
    requires
        0 <= m,
        forall|j: int| 0 <= j < nv.keys.len() ==> (#[trigger] nv.keys[j]).len() == k,
        nv.values.len() == nv.keys.len(),
    ensures
        slots_upto(nv, m, k).len() == m * (k + 8),
    decreases m,
{
    if m > 0 {
        lemma_slots_upto_len(nv, m - 1, k);
        assert(slot_bytes(nv, m - 1, k).len() == k + 8) by {
            if 0 <= m - 1 < nv.keys.len() {
                lemma_le_bytes_len(nv.values[m - 1] as nat, 8);
            }
        }
        assert(slots_upto(nv, m, k) == slots_upto(nv, m - 1, k) + slot_bytes(nv, m - 1, k));
        assert(slots_upto(nv, m, k).len() == (m - 1) * (k + 8) + (k + 8));
        assert(m * (k + 8) == (m - 1) * (k + 8) + (k + 8)) by (nonlinear_arith);
    } else {
        assert(m == 0);
        assert(slots_upto(nv, 0, k).len() == 0);
        assert(0 * ((k + 8) as int) == 0) by (nonlinear_arith);
    }
}

pub proof fn lemma_kids_upto_len(nv: NodeV, m: int, t: nat, k: nat)
    requires
        0 <= m,
    ensures
        kids_upto(nv, m, t, k).len() == m * 8,
    decreases m,
{
    if m > 0 {
        lemma_kids_upto_len(nv, m - 1, t, k);
        lemma_le_bytes_len(child_field(nv.children[m - 1], t, k), 8);
        assert(kids_upto(nv, m, t, k).len() == (m - 1) * 8 + 8);
        assert(m * 8 == (m - 1) * 8 + 8) by (nonlinear_arith);
    } else {
        assert(m == 0);
    }
}

/// A structurally sound node occupies exactly `node_size` bytes.
pub proof fn lemma_node_bytes_len(nv: NodeV, t: nat, k: nat)
    requires
        forall|j: int| 0 <= j < nv.keys.len() ==> (#[trigger] nv.keys[j]).len() == k,
        nv.values.len() == nv.keys.len(),
        t >= 1,
    ensures
        node_bytes(nv, t, k).len() == node_size(t, k),
{
    lemma_le_bytes_len(nv.keys.len(), 4);
    lemma_slots_upto_len(nv, 2 * t - 1, k);
    lemma_kids_upto_len(nv, 2 * t as int, t, k);
    assert(2 * t as int * 8 == 2 * t * 8) by (nonlinear_arith);
}

/// The packed arena of a structurally sound index occupies `m` node sizes.
pub proof fn lemma_arena_bytes_len(nodes: Seq<NodeV>, m: int, t: nat, k: nat)
    requires
        0 <= m <= nodes.len(),
        t >= 1,
        forall|j: int|
            0 <= j < nodes.len() ==> (#[trigger] nodes[j]).values.len() == nodes[j].keys.len()
                && (forall|i: int|
                0 <= i < nodes[j].keys.len() ==> (#[trigger] nodes[j].keys[i]).len() == k),
    ensures
        arena_bytes(nodes, m, t, k).len() == m * node_size(t, k),
    decreases m,
{
    if m > 0 {
        lemma_arena_bytes_len(nodes, m - 1, t, k);
        lemma_node_bytes_len(nodes[m - 1], t, k);
        assert(arena_bytes(nodes, m, t, k).len() == (m - 1) * node_size(t, k) + node_size(t, k));
        assert(m * node_size(t, k) == (m - 1) * node_size(t, k) + node_size(t, k)) by (nonlinear_arith);
    } else {
        assert(m == 0);
        assert(0 * node_size(t, k) == 0) by (nonlinear_arith);
    }
}

/// Splitting equal concatenations at the same point gives equal parts.
proof fn lemma_concat_peel(a1: Seq<u8>, b1: Seq<u8>, a2: Seq<u8>, b2: Seq<u8>)
    requires
        a1 + b1 == a2 + b2,
        a1.len() == a2.len(),
    ensures
        a1 == a2,
        b1 == b2,
{
    assert((a1 + b1).len() == (a2 + b2).len());
    assert forall|i: int| 0 <= i < a1.len() implies a1[i] == a2[i] by {
        assert((a1 + b1)[i] == a1[i] && (a2 + b2)[i] == a2[i]);
    }
    assert(a1 =~= a2);
    assert(b1.len() == b2.len()) by {
        assert((a1 + b1).len() == a1.len() + b1.len());
        assert((a2 + b2).len() == a2.len() + b2.len());
    }
    assert forall|i: int| 0 <= i < b1.len() implies b1[i] == b2[i] by {
        assert((a1 + b1)[a1.len() + i] == b1[i] && (a2 + b2)[a2.len() + i] == b2[i]);
    }
    assert(b1 =~= b2);
}

/// The little-endian encoding is injective on values that fit.
proof fn lemma_le_bytes_inj(v1: nat, v2: nat, n: nat)
    requires
        le_bytes(v1, n) == le_bytes(v2, n),
        v1 < pow256(n),
        v2 < pow256(n),
    ensures
        v1 == v2,
{
    lemma_le_round_trip(v1, n);
    lemma_le_round_trip(v2, n);
}

/// Equal slot regions force equal keys and values.
proof fn lemma_slots_inj(nv1: NodeV, nv2: NodeV, m: int, k: nat)
    requires
        0 <= m,
        nv1.keys.len() == nv2.keys.len(),
        nv1.values.len() == nv1.keys.len(),
        nv2.values.len() == nv2.keys.len(),
        forall|i: int| 0 <= i < nv1.keys.len() ==> (#[trigger] nv1.keys[i]).len() == k,
        forall|i: int| 0 <= i < nv2.keys.len() ==> (#[trigger] nv2.keys[i]).len() == k,
        slots_upto(nv1, m, k) == slots_upto(nv2, m, k),
    ensures
        forall|j: int|
            0 <= j < m && j < nv1.keys.len() ==> #[trigger] nv1.keys[j] == nv2.keys[j]
                && nv1.values[j] == nv2.values[j],
    decreases m,
{
    if m > 0 {
        lemma_slots_upto_len(nv1, m - 1, k);
        lemma_slots_upto_len(nv2, m - 1, k);
        assert(slot_bytes(nv1, m - 1, k).len() == k + 8) by {
            if m - 1 < nv1.keys.len() {
                lemma_le_bytes_len(nv1.values[m - 1] as nat, 8);
            }
        }
        lemma_concat_peel(
            slots_upto(nv1, m - 1, k),
            slot_bytes(nv1, m - 1, k),
            slots_upto(nv2, m - 1, k),
            slot_bytes(nv2, m - 1, k),
        );
        lemma_slots_inj(nv1, nv2, m - 1, k);
        if m - 1 < nv1.keys.len() {
            lemma_le_bytes_len(nv1.values[m - 1] as nat, 8);
            lemma_le_bytes_len(nv2.values[m - 1] as nat, 8);
            lemma_concat_peel(
                nv1.keys[m - 1],
                le_bytes(nv1.values[m - 1] as nat, 8),
                nv2.keys[m - 1],
                le_bytes(nv2.values[m - 1] as nat, 8),
            );
            lemma_pow256_8();
            lemma_le_bytes_inj(nv1.values[m - 1] as nat, nv2.values[m - 1] as nat, 8);
        }
    }
}

/// Equal child regions force equal child slots, since offsets below the file
/// end can never collide with the all-ones absent marker.
proof fn lemma_kids_inj(nv1: NodeV, nv2: NodeV, m: int, t: nat, k: nat, num: int)
    requires
        0 <= m <= nv1.children.len(),
        m <= nv2.children.len(),
        forall|i: int|
            0 <= i < nv1.children.len() ==> -1 <= #[trigger] nv1.children[i] && (nv1.children[i]
                as int) < num,
        forall|i: int|
            0 <= i < nv2.children.len() ==> -1 <= #[trigger] nv2.children[i] && (nv2.children[i]
                as int) < num,
        node_off(num, t, k) <= 0xFFFF_FFFF_FFFF_FFFF,
        node_size(t, k) >= 1,
        kids_upto(nv1, m, t, k) == kids_upto(nv2, m, t, k),
    ensures
        forall|j: int| 0 <= j < m ==> #[trigger] nv1.children[j] == nv2.children[j],
    decreases m,
{
    if m > 0 {
        lemma_kids_upto_len(nv1, m - 1, t, k);
        lemma_kids_upto_len(nv2, m - 1, t, k);
        lemma_le_bytes_len(child_field(nv1.children[m - 1], t, k), 8);
        lemma_concat_peel(
            kids_upto(nv1, m - 1, t, k),
            le_bytes(child_field(nv1.children[m - 1], t, k), 8),
            kids_upto(nv2, m - 1, t, k),
            le_bytes(child_field(nv2.children[m - 1], t, k), 8),
        );
        lemma_kids_inj(nv1, nv2, m - 1, t, k, num);
        let c1 = nv1.children[m - 1];
        let c2 = nv2.children[m - 1];
        lemma_pow256_8();
        assert(child_field(c1, t, k) < pow256(8) && child_field(c2, t, k) < pow256(8)) by {
            lemma_child_field_bound(c1, t, k, num);
            lemma_child_field_bound(c2, t, k, num);
        }
        lemma_le_bytes_inj(child_field(c1, t, k), child_field(c2, t, k), 8);
        assert(c1 == c2) by {
            lemma_child_field_bound(c1, t, k, num);
            lemma_child_field_bound(c2, t, k, num);
            if c1 >= 0 && c2 >= 0 {
                assert((c1 as int) * node_size(t, k) == (c2 as int) * node_size(t, k));
                assert(c1 as int == c2 as int) by (nonlinear_arith)
                    requires
                        (c1 as int) * node_size(t, k) == (c2 as int) * node_size(t, k),
                        node_size(t, k) >= 1,
                ;
            }
        }
    }
}

/// A live child's stored offset is strictly below the absent marker.
proof fn lemma_child_field_bound(c: i64, t: nat, k: nat, num: int)
    requires
        -1 <= c,
        (c as int) < num,
        node_off(num, t, k) <= 0xFFFF_FFFF_FFFF_FFFF,
        node_size(t, k) >= 1,
    ensures
        child_field(c, t, k) <= 0xFFFF_FFFF_FFFF_FFFF,
        c >= 0 ==> child_field(c, t, k) < 0xFFFF_FFFF_FFFF_FFFF,
{
    if c >= 0 {
        assert((c as int) * node_size(t, k) + node_size(t, k) <= num * node_size(t, k)
            && 0 <= (c as int) * node_size(t, k)) by (nonlinear_arith)
            requires
                0 <= c as int,
                c as int + 1 <= num,
                node_size(t, k) >= 1,
        ;
    }
}

/// Equal node images force equal nodes.
proof fn lemma_node_bytes_inj(nv1: NodeV, nv2: NodeV, t: nat, k: nat, num: int)
    requires
        node_shaped(nv1, t, k, num),
        node_shaped(nv2, t, k, num),
        t >= 2,
        t <= 0x4000_0000,
        node_off(num, t, k) <= 0xFFFF_FFFF_FFFF_FFFF,
        node_bytes(nv1, t, k) == node_bytes(nv2, t, k),
    ensures
        nv1 == nv2,
{
    lemma_pow256_8();
    lemma_le_bytes_len(nv1.keys.len(), 4);
    lemma_le_bytes_len(nv2.keys.len(), 4);
    lemma_slots_upto_len(nv1, 2 * t - 1, k);
    lemma_slots_upto_len(nv2, 2 * t - 1, k);
    lemma_concat_peel(
        le_bytes(nv1.keys.len(), 4) + slots_upto(nv1, 2 * t - 1, k),
        kids_upto(nv1, 2 * t as int, t, k),
        le_bytes(nv2.keys.len(), 4) + slots_upto(nv2, 2 * t - 1, k),
        kids_upto(nv2, 2 * t as int, t, k),
    );
    lemma_concat_peel(
        le_bytes(nv1.keys.len(), 4),
        slots_upto(nv1, 2 * t - 1, k),
        le_bytes(nv2.keys.len(), 4),
        slots_upto(nv2, 2 * t - 1, k),
    );
    lemma_le_bytes_inj(nv1.keys.len(), nv2.keys.len(), 4);
    assert((2 * t - 1) * (k + 8) >= 0) by (nonlinear_arith)
        requires
            t >= 1,
    ;
    assert(2 * t * 8 >= 0) by (nonlinear_arith)
        requires
            t >= 0,
    ;
    lemma_slots_inj(nv1, nv2, 2 * t - 1, k);
    assert(node_size(t, k) == 4 + (2 * t - 1) * (k + 8) + 2 * t * 8);
    assert(node_size(t, k) >= 1);
    lemma_kids_inj(nv1, nv2, 2 * t as int, t, k, num);
    assert forall|j: int|
        0 <= j < nv1.keys.len() implies nv1.keys[j] == nv2.keys[j] && nv1.values[j]
        == nv2.values[j] by {
        assert(nv1.keys[j] == nv2.keys[j]);
    }
    assert(nv1.keys =~= nv2.keys);
    assert(nv1.values =~= nv2.values);
    assert(nv1.children =~= nv2.children);
    assert(nv1 =~= nv2);
}

/// Equal arena images force equal arenas.
proof fn lemma_arena_inj(nodes1: Seq<NodeV>, nodes2: Seq<NodeV>, m: int, t: nat, k: nat, num: int)
    requires
        0 <= m <= nodes1.len(),
        m <= nodes2.len(),
        t >= 2,
        t <= 0x4000_0000,
        node_off(num, t, k) <= 0xFFFF_FFFF_FFFF_FFFF,
        forall|j: int| 0 <= j < nodes1.len() ==> node_shaped(#[trigger] nodes1[j], t, k, num),
        forall|j: int| 0 <= j < nodes2.len() ==> node_shaped(#[trigger] nodes2[j], t, k, num),
        arena_bytes(nodes1, m, t, k) == arena_bytes(nodes2, m, t, k),
    ensures
        forall|j: int| 0 <= j < m ==> #[trigger] nodes1[j] == nodes2[j],
    decreases m,
{
    if m > 0 {
        lemma_node_bytes_len(nodes1[m - 1], t, k);
        lemma_node_bytes_len(nodes2[m - 1], t, k);
        lemma_arena_bytes_len(nodes1, m - 1, t, k);
        lemma_arena_bytes_len(nodes2, m - 1, t, k);
        lemma_concat_peel(
            arena_bytes(nodes1, m - 1, t, k),
            node_bytes(nodes1[m - 1], t, k),
            arena_bytes(nodes2, m - 1, t, k),
            node_bytes(nodes2[m - 1], t, k),
        );
        lemma_arena_inj(nodes1, nodes2, m - 1, t, k, num);
        lemma_node_bytes_inj(nodes1[m - 1], nodes2[m - 1], t, k, num);
    }
}

/// An index file image identifies the index it was written from: two shaped
/// indexes with the same image are the same index.  In particular, opening
/// the bytes written by `to_bytes` of a well-formed index yields that very
/// index again.
pub proof fn lemma_image_identifies(iv1: IndexV, iv2: IndexV)
    requires
        arena_shaped(iv1),
        arena_shaped(iv2),
        iv1.file_fits(),
        iv2.file_fits(),
        index_bytes(iv1) == index_bytes(iv2),
    ensures
        iv1 == iv2,
{
    lemma_pow256_8();
    let r1 = node_off(iv1.root, iv1.t, iv1.keysize) as nat;
    let r2 = node_off(iv2.root, iv2.t, iv2.keysize) as nat;
    lemma_le_bytes_len(iv1.t, 4);
    lemma_le_bytes_len(iv2.t, 4);
    lemma_le_bytes_len(r1, 8);
    lemma_le_bytes_len(r2, 8);
    lemma_le_bytes_len(iv1.keysize, 2);
    lemma_le_bytes_len(iv2.keysize, 2);
    lemma_concat_peel(
        le_bytes(iv1.t, 4) + le_bytes(r1, 8) + le_bytes(iv1.keysize, 2),
        arena_bytes(iv1.nodes, iv1.nodes.len() as int, iv1.t, iv1.keysize),
        le_bytes(iv2.t, 4) + le_bytes(r2, 8) + le_bytes(iv2.keysize, 2),
        arena_bytes(iv2.nodes, iv2.nodes.len() as int, iv2.t, iv2.keysize),
    );
    lemma_concat_peel(
        le_bytes(iv1.t, 4) + le_bytes(r1, 8),
        le_bytes(iv1.keysize, 2),
        le_bytes(iv2.t, 4) + le_bytes(r2, 8),
        le_bytes(iv2.keysize, 2),
    );
    lemma_concat_peel(le_bytes(iv1.t, 4), le_bytes(r1, 8), le_bytes(iv2.t, 4), le_bytes(r2, 8));
    lemma_le_bytes_inj(iv1.t, iv2.t, 4);
    lemma_le_bytes_inj(iv1.keysize, iv2.keysize, 2);
    let t = iv1.t;
    let k = iv1.keysize;
    let ns = node_size(t, k);
    assert((2 * t - 1) * (k + 8) >= 0) by (nonlinear_arith)
        requires
            t >= 1,
    ;
    assert(2 * t * 8 >= 0) by (nonlinear_arith)
        requires
            t >= 0,
    ;
    assert(ns == 4 + (2 * t - 1) * (k + 8) + 2 * t * 8);
    assert(ns >= 1);
    // the root offsets agree, so the roots do
    assert(node_off(iv1.root, t, k) <= iv1.file_size()) by {
        assert((iv1.root) * ns + ns <= iv1.nodes.len() * ns && 0 <= iv1.root * ns) by (nonlinear_arith)
            requires
                0 <= iv1.root,
                iv1.root + 1 <= iv1.nodes.len(),
                ns >= 1,
        ;
    }
    assert(node_off(iv2.root, t, k) <= iv2.file_size()) by {
        assert((iv2.root) * ns + ns <= iv2.nodes.len() * ns && 0 <= iv2.root * ns) by (nonlinear_arith)
            requires
                0 <= iv2.root,
                iv2.root + 1 <= iv2.nodes.len(),
                ns >= 1,
        ;
    }
    lemma_le_bytes_inj(r1, r2, 8);
    assert(iv1.root == iv2.root) by (nonlinear_arith)
        requires
            14 + iv1.root * node_size(iv1.t, iv1.keysize) == 14 + iv2.root * node_size(
                iv2.t,
                iv2.keysize,
            ),
            iv1.t == iv2.t,
            iv1.keysize == iv2.keysize,
            node_size(iv1.t, iv1.keysize) >= 1,
    ;
    // the arenas have the same node count and the same node images
    let m1 = iv1.nodes.len() as int;
    let m2 = iv2.nodes.len() as int;
    lemma_arena_bytes_len(iv1.nodes, m1, t, k);
    lemma_arena_bytes_len(iv2.nodes, m2, t, k);
    assert(m1 * ns == m2 * ns);
    assert(m1 == m2) by (nonlinear_arith)
        requires
            m1 * ns == m2 * ns,
            ns >= 1,
    ;
    assert(iv1.file_size() == iv2.file_size());
    lemma_arena_inj(iv1.nodes, iv2.nodes, m1, t, k, m1);
    assert(iv1.nodes =~= iv2.nodes);
    assert(iv1 =~= iv2);
}

/// How many keys of `keys` are strictly below `pk`: in a sorted node, the
/// slot the half-interval search lands on.
pub open spec fn count_lt(keys: Seq<Seq<u8>>, pk: Seq<u8>) -> int
    decreases keys.len(),
{
    if keys.len() == 0 {
        0
    } else {
        (if lex_lt(keys[0], pk) {
            1int
        } else {
            0int
        }) + count_lt(keys.skip(1), pk)
    }
}

/// What `search` answers, as a function of the tree and the padded key
/// alone: find the first key not below the padded form; an exact match
/// answers its value, a leaf answers nothing, an inner node asks the child
/// at that slot.
pub open spec fn search_spec(nodes: Seq<NodeV>, i: int, pk: Seq<u8>, f: nat) -> Option<u64>
    decreases f,
{
    if f == 0 || !(0 <= i < nodes.len()) {
        None
    } else {
        let nv = nodes[i];
        let low = count_lt(nv.keys, pk);
        if low < nv.keys.len() && nv.keys[low] == pk {
            Some(nv.values[low])
        } else if is_leaf(nv) {
            None
        } else {
            search_spec(nodes, nv.children[low] as int, pk, (f - 1) as nat)
        }
    }
}

/// When everything up to `lo` is below `pk` and nothing from `lo` on is,
/// exactly `lo` keys are below `pk`.
proof fn lemma_count_lt_split(keys: Seq<Seq<u8>>, pk: Seq<u8>, lo: int)
    requires
        0 <= lo <= keys.len(),
        forall|j: int| 0 <= j < lo ==> lex_lt(#[trigger] keys[j], pk),
        forall|j: int| lo <= j < keys.len() ==> !lex_lt(#[trigger] keys[j], pk),
    ensures
        count_lt(keys, pk) == lo,
    decreases keys.len(),
{
    if keys.len() > 0 {
        assert(forall|j: int| 0 <= j < keys.len() - 1 ==> #[trigger] keys.skip(1)[j] == keys[j + 1]);
        if lo == 0 {
            lemma_count_lt_split(keys.skip(1), pk, 0);
        } else {
            lemma_count_lt_split(keys.skip(1), pk, lo - 1);
        }
    }
}

/// `rs` is the executable form of the entry sequence `es`: same length, each
/// key byte-for-byte equal, each value equal.
pub open spec fn rec_matches(rs: Seq<(Vec<u8>, u64)>, es: Seq<(Seq<u8>, u64)>) -> bool {
    &&& rs.len() == es.len()
    &&& (forall|i: int|
        0 <= i < rs.len() ==> (#[trigger] rs[i]).0@ == es[i].0 && rs[i].1 == es[i].1)
}

/// Entry sequences of well-formed subtrees are sorted by key.
pub open spec fn sorted_entries(es: Seq<(Seq<u8>, u64)>) -> bool {
    forall|a: int, b: int| 0 <= a <= b < es.len() ==> lex_le(es[a].0, es[b].0)
}

/// In-order entries of a well-formed search tree come out in
/// non-decreasing key order.
pub proof fn lemma_entries_sorted(nodes: Seq<NodeV>, i: int, t: nat, k: nat, f: nat)
    requires
        tree_ok(nodes, i, t, k, f),
    ensures
        sorted_entries(entries(nodes, i, f)),
    decreases f, nodes[i].keys.len() + 2,
{
    let nv = nodes[i];
    let n = nv.keys.len() as int;
    if is_leaf(nv) {
        assert(entries(nodes, i, f) == pairs(nv));
    } else {
        lemma_ent_upto_sorted(nodes, i, t, k, f, n);
        assert(entries(nodes, i, f) == ent_upto(nodes, nv, n, (f - 1) as nat));
    }
}

/// The interleaving of children `0..=m` and keys `0..m` is sorted, and (when
/// a bracketing key exists) bounded above by key `m`.
proof fn lemma_ent_upto_sorted(nodes: Seq<NodeV>, i: int, t: nat, k: nat, f: nat, m: int)
    requires
        tree_ok(nodes, i, t, k, f),
        !is_leaf(nodes[i]),
        0 <= m <= nodes[i].keys.len(),
    ensures
        sorted_entries(ent_upto(nodes, nodes[i], m, (f - 1) as nat)),
        m < nodes[i].keys.len() ==> all_keys_le(
            ent_upto(nodes, nodes[i], m, (f - 1) as nat),
            nodes[i].keys[m],
        ),
    decreases f, m + 1,
{
    let nv = nodes[i];
    let n = nv.keys.len() as int;
    let fc = (f - 1) as nat;
    lemma_kids_ok_index(nodes, nv.children, n + 1, t, k, fc, m);
    lemma_entries_sorted(nodes, nv.children[m] as int, t, k, fc);
    if m == 0 {
        assert(ent_upto(nodes, nv, 0, fc) == entries(nodes, nv.children[0] as int, fc));
        if 0 < n {
            assert(all_keys_le(child_entries(nodes, i, 0, fc), nv.keys[0]));
        }
    } else {
        lemma_ent_upto_sorted(nodes, i, t, k, f, m - 1);
        let x = ent_upto(nodes, nv, m - 1, fc);
        let y = entries(nodes, nv.children[m] as int, fc);
        let key = nv.keys[m - 1];
        let whole = ent_upto(nodes, nv, m, fc);
        assert(whole == x + seq![(key, nv.values[m - 1])] + y);
        assert(all_keys_le(x, key));
        assert(all_keys_ge(child_entries(nodes, i, m, fc), key));
        assert forall|a: int, b: int| 0 <= a <= b < whole.len() implies lex_le(
            whole[a].0,
            whole[b].0,
        ) by {
            let xl = x.len() as int;
            if b < xl {
                assert(whole[a] == x[a] && whole[b] == x[b]);
            } else if b == xl {
                if a < xl {
                    assert(lex_le(x[a].0, key));
                } else {
                    lemma_lex_le_refl(key);
                }
            } else {
                assert(whole[b] == y[b - xl - 1]);
                assert(lex_le(key, y[b - xl - 1].0));
                if a < xl {
                    lemma_lex_le_trans(x[a].0, key, y[b - xl - 1].0);
                } else if a == xl {
                } else {
                    assert(whole[a] == y[a - xl - 1]);
                    assert(lex_le(y[a - xl - 1].0, y[b - xl - 1].0));
                }
            }
        }
        if m < n {
            assert forall|e: int| 0 <= e < whole.len() implies lex_le(
                whole[e].0,
                nv.keys[m],
            ) by {
                let xl = x.len() as int;
                assert(lex_le(nv.keys[m - 1], nv.keys[m]));
                if e < xl {
                    assert(lex_le(x[e].0, key));
                    lemma_lex_le_trans(x[e].0, key, nv.keys[m]);
                } else if e == xl {
                } else {
                    assert(whole[e] == y[e - xl - 1]);
                    assert(lex_le(y[e - xl - 1].0, nv.keys[m])) by {
                        assert(all_keys_le(child_entries(nodes, i, m, fc), nv.keys[m]));
                    }
                }
            }
        }
    }
}

/// The part of a node's interleaving covered after the main loop has run
/// `i` times: children `0..i` and keys `0..i`.
pub open spec fn upto_pairs(nodes: Seq<NodeV>, nv: NodeV, i: int, f: nat) -> Seq<(Seq<u8>, u64)> {
    if i <= 0 {
        Seq::empty()
    } else {
        ent_upto(nodes, nv, i - 1, f) + seq![(nv.keys[i - 1], nv.values[i - 1])]
    }
}

proof fn lemma_matches_concat(
    a: Seq<(Vec<u8>, u64)>,
    b: Seq<(Vec<u8>, u64)>,
    e1: Seq<(Seq<u8>, u64)>,
    e2: Seq<(Seq<u8>, u64)>,
)
    requires
        rec_matches(a, e1),
        rec_matches(b, e2),
    ensures
        rec_matches(a + b, e1 + e2),
{
    assert forall|i: int|
        0 <= i < (a + b).len() implies ((#[trigger] (a + b)[i]).0@ == (e1 + e2)[i].0 && (a
        + b)[i].1 == (e1 + e2)[i].1) by {
        if i < a.len() {
            assert((a + b)[i] == a[i] && (e1 + e2)[i] == e1[i]);
        } else {
            assert((a + b)[i] == b[i - a.len()] && (e1 + e2)[i] == e2[i - e1.len()]);
        }
    }
}

/// If every slot's bytes stand at their place in `bytes`, the concatenated
/// slots are exactly the covered range.
proof fn lemma_slots_from_regions(nv: NodeV, bytes: Seq<u8>, start: int, m: int, k: nat)
    requires
        0 <= m,
        0 <= start,
        start + m * (k + 8) <= bytes.len(),
        forall|j: int|
            0 <= j < m ==> #[trigger] slot_bytes(nv, j, k) == bytes.subrange(
                start + j * (k + 8),
                start + (j + 1) * (k + 8),
            ),
    ensures
        slots_upto(nv, m, k) == bytes.subrange(start, start + m * (k + 8)),
    decreases m,
{
    if m == 0 {
        assert(m * ((k + 8) as int) == 0) by (nonlinear_arith)
            requires
                m == 0,
        ;
        assert(slots_upto(nv, 0, k) =~= bytes.subrange(start, start));
    } else {
        assert((m - 1) * (k + 8) + (k + 8) == m * (k + 8)) by (nonlinear_arith);
        assert(0 <= (m - 1) * (k + 8)) by (nonlinear_arith)
            requires
                m >= 1,
        ;
        lemma_slots_from_regions(nv, bytes, start, m - 1, k);
        assert(slot_bytes(nv, m - 1, k) == bytes.subrange(
            start + (m - 1) * (k + 8),
            start + m * (k + 8),
        ));
        let x = slots_upto(nv, m - 1, k);
        let y = slot_bytes(nv, m - 1, k);
        let xl = (m - 1) * ((k + 8) as int);
        assert(x.len() == xl);
        assert(y.len() == k + 8);
        assert forall|i: int|
            0 <= i < m * ((k + 8) as int) implies (x + y)[i] == bytes.subrange(
            start,
            start + m * (k + 8),
        )[i] by {
            if i < xl {
                assert((x + y)[i] == x[i]);
                assert(x[i] == bytes[start + i]);
            } else {
                assert((x + y)[i] == y[i - xl]);
                assert(y[i - xl] == bytes[start + xl + (i - xl)]);
            }
        }
        assert(slots_upto(nv, m, k) =~= bytes.subrange(start, start + m * (k + 8)));
    }
}

/// Likewise for the child slots.
proof fn lemma_kids_from_regions(nv: NodeV, bytes: Seq<u8>, start: int, m: int, t: nat, k: nat)
    requires
        0 <= m,
        0 <= start,
        start + m * 8 <= bytes.len(),
        forall|j: int|
            0 <= j < m ==> le_bytes(#[trigger] child_field(nv.children[j], t, k), 8)
                == bytes.subrange(start + j * 8, start + (j + 1) * 8),
    ensures
        kids_upto(nv, m, t, k) == bytes.subrange(start, start + m * 8),
    decreases m,
{
    if m == 0 {
        assert(kids_upto(nv, 0, t, k) =~= bytes.subrange(start, start));
        assert(m * 8 == 0);
    } else {
        lemma_kids_from_regions(nv, bytes, start, m - 1, t, k);
        assert(le_bytes(child_field(nv.children[m - 1], t, k), 8) == bytes.subrange(
            start + (m - 1) * 8,
            start + m * 8,
        ));
        let x = kids_upto(nv, m - 1, t, k);
        let y = le_bytes(child_field(nv.children[m - 1], t, k), 8);
        let xl = (m - 1) * 8;
        assert(x.len() == xl);
        assert(y.len() == 8);
        assert forall|i: int|
            0 <= i < m * 8 implies (x + y)[i] == bytes.subrange(start, start + m * 8)[i] by {
            if i < xl {
                assert((x + y)[i] == x[i]);
                assert(x[i] == bytes[start + i]);
            } else {
                assert((x + y)[i] == y[i - xl]);
                assert(y[i - xl] == bytes[start + xl + (i - xl)]);
            }
        }
        assert(kids_upto(nv, m, t, k) =~= bytes.subrange(start, start + m * 8));
    }
}

/// Node capacity: no node of a well-formed index, in memory or in the count
/// field of its persisted form, ever holds more than `2t - 1` keys.
pub proof fn lemma_node_capacity(iv: IndexV, j: int)
    requires
        iv.wf(),
        0 <= j < iv.nodes.len(),
    ensures
        iv.nodes[j].keys.len() <= 2 * iv.t - 1,
        le_val(node_bytes(iv.nodes[j], iv.t, iv.keysize).subrange(0, 4)) == iv.nodes[j].keys.len(),
{
    assert(node_wf(iv.nodes[j], iv.t, iv.keysize, iv.nodes.len() as int));
    lemma_le_bytes_len(iv.nodes[j].keys.len(), 4);
    assert(node_bytes(iv.nodes[j], iv.t, iv.keysize).subrange(0, 4) =~= le_bytes(
        iv.nodes[j].keys.len(),
        4,
    ));
    assert(iv.nodes[j].keys.len() < pow256(4)) by {
        lemma_pow256_8();
    }
    lemma_le_round_trip(iv.nodes[j].keys.len(), 4);
}

/// The packed arena bytes only depend on the nodes they cover.
proof fn lemma_arena_eq(nodesa: Seq<NodeV>, nodesb: Seq<NodeV>, m: int, t: nat, k: nat)
    requires
        0 <= m,
        forall|q: int| 0 <= q < m ==> #[trigger] nodesb[q] == nodesa[q],
    ensures
        arena_bytes(nodesb, m, t, k) == arena_bytes(nodesa, m, t, k),
    decreases m,
{
    if m > 0 {
        lemma_arena_eq(nodesa, nodesb, m - 1, t, k);
    }
}

/// Each slot of a concatenated slot region stands at its own place.
proof fn lemma_slots_at(nv: NodeV, bytes: Seq<u8>, start: int, m: int, k: nat, j: int)
    requires
        0 <= j < m,
        0 <= start,
        start + m * (k + 8) <= bytes.len(),
        nv.values.len() == nv.keys.len(),
        forall|i: int| 0 <= i < nv.keys.len() ==> (#[trigger] nv.keys[i]).len() == k,
        slots_upto(nv, m, k) == bytes.subrange(start, start + m * (k + 8)),
    ensures
        slot_bytes(nv, j, k) == bytes.subrange(start + j * (k + 8), start + (j + 1) * (k + 8)),
    decreases m,
{
    lemma_slots_upto_len(nv, m - 1, k);
    assert(slot_bytes(nv, m - 1, k).len() == k + 8) by {
        if m - 1 < nv.keys.len() {
            lemma_le_bytes_len(nv.values[m - 1] as nat, 8);
        }
    }
    assert((m - 1) * (k + 8) + (k + 8) == m * (k + 8)) by (nonlinear_arith);
    assert(0 <= (m - 1) * (k + 8)) by (nonlinear_arith)
        requires
            m >= 1,
    ;
    assert(bytes.subrange(start, start + m * (k + 8)) =~= bytes.subrange(
        start,
        start + (m - 1) * (k + 8),
    ) + bytes.subrange(start + (m - 1) * (k + 8), start + m * (k + 8)));
    lemma_concat_peel(
        slots_upto(nv, m - 1, k),
        slot_bytes(nv, m - 1, k),
        bytes.subrange(start, start + (m - 1) * (k + 8)),
        bytes.subrange(start + (m - 1) * (k + 8), start + m * (k + 8)),
    );
    if j < m - 1 {
        lemma_slots_at(nv, bytes, start, m - 1, k, j);
    }
}

/// Each child slot of a concatenated child region stands at its own place.
#[verifier::rlimit(60)]
proof fn lemma_kids_at(nv: NodeV, bytes: Seq<u8>, start: int, m: int, t: nat, k: nat, j: int)
    requires
        0 <= j < m,
        0 <= start,
        start + m * 8 <= bytes.len(),
        kids_upto(nv, m, t, k) == bytes.subrange(start, start + m * 8),
    ensures
        le_bytes(child_field(nv.children[j], t, k), 8) == bytes.subrange(
            start + j * 8,
            start + (j + 1) * 8,
        ),
    decreases m,
{
    lemma_kids_upto_len(nv, m - 1, t, k);
    lemma_le_bytes_len(child_field(nv.children[m - 1], t, k), 8);
    assert(bytes.subrange(start, start + m * 8) =~= bytes.subrange(start, start + (m - 1) * 8)
        + bytes.subrange(start + (m - 1) * 8, start + m * 8));
    lemma_concat_peel(
        kids_upto(nv, m - 1, t, k),
        le_bytes(child_field(nv.children[m - 1], t, k), 8),
        bytes.subrange(start, start + (m - 1) * 8),
        bytes.subrange(start + (m - 1) * 8, start + m * 8),
    );
    if j < m - 1 {
        lemma_kids_at(nv, bytes, start, m - 1, t, k, j);
    }
}

/// What a node region spells when it is canonical: the count field reads the
/// key count, the dead slots are zero, and each child slot reads its field.
proof fn lemma_canonical_node_facts(
    bytes: Seq<u8>,
    pos: int,
    t: nat,
    k: nat,
    ns: int,
    num: int,
    nv: NodeV,
)
    requires
        node_shaped(nv, t, k, num),
        2 <= t <= 0x4000_0000,
        0 <= pos,
        ns == node_size(t, k),
        ns >= 1,
        pos + ns <= bytes.len(),
        node_off(num, t, k) <= 0xFFFF_FFFF_FFFF_FFFF,
        bytes.subrange(pos, pos + ns) == node_bytes(nv, t, k),
    ensures
        le_val(bytes.subrange(pos, pos + 4)) == nv.keys.len(),
        forall|b: int|
            pos + 4 + nv.keys.len() * ((k + 8) as int) <= b < pos + 4 + (2 * t - 1) * ((k
                + 8) as int) ==> bytes[b] == 0u8,
        forall|j: int|
            0 <= j < 2 * t ==> le_val(
                bytes.subrange(
                    pos + 4 + (2 * t - 1) * ((k + 8) as int) + j * 8,
                    pos + 4 + (2 * t - 1) * ((k + 8) as int) + (j + 1) * 8,
                ),
            ) == child_field(#[trigger] nv.children[j], t, k),
{
    lemma_pow256_8();
    lemma_le_bytes_len(nv.keys.len(), 4);
    lemma_slots_upto_len(nv, 2 * t - 1, k);
    lemma_kids_upto_len(nv, 2 * t as int, t, k);
    let seg = bytes.subrange(pos, pos + ns);
    let sl = (2 * t - 1) * ((k + 8) as int);
    assert((2 * t - 1) * ((k + 8) as int) >= 0) by (nonlinear_arith)
        requires
            t >= 1,
    ;
    assert(sl >= 0);
    assert(2 * t * 8 >= 0) by (nonlinear_arith)
        requires
            t >= 0,
    ;
    assert(seg =~= bytes.subrange(pos, pos + 4) + bytes.subrange(pos + 4, pos + 4 + sl)
        + bytes.subrange(pos + 4 + sl, pos + ns));
    lemma_concat_peel(
        le_bytes(nv.keys.len(), 4) + slots_upto(nv, 2 * t - 1, k),
        kids_upto(nv, 2 * t as int, t, k),
        bytes.subrange(pos, pos + 4) + bytes.subrange(pos + 4, pos + 4 + sl),
        bytes.subrange(pos + 4 + sl, pos + ns),
    );
    lemma_concat_peel(
        le_bytes(nv.keys.len(), 4),
        slots_upto(nv, 2 * t - 1, k),
        bytes.subrange(pos, pos + 4),
        bytes.subrange(pos + 4, pos + 4 + sl),
    );
    lemma_le_round_trip(nv.keys.len(), 4);
    // the dead slots are zero bytes
    assert forall|b: int|
        pos + 4 + nv.keys.len() * ((k + 8) as int) <= b < pos + 4 + sl implies bytes[b]
        == 0u8 by {
        let kr = (k + 8) as int;
        let j = (b - pos - 4) / kr;
        vstd::arithmetic::div_mod::lemma_fundamental_div_mod(b - pos - 4, kr);
        assert(j * kr <= b - pos - 4 < (j + 1) * kr) by (nonlinear_arith)
            requires
                b - pos - 4 == kr * ((b - pos - 4) / kr) + (b - pos - 4) % kr,
                0 <= (b - pos - 4) % kr < kr,
                j == (b - pos - 4) / kr,
        ;
        assert(nv.keys.len() <= j) by (nonlinear_arith)
            requires
                nv.keys.len() * kr <= b - pos - 4,
                (j + 1) * kr > b - pos - 4,
                kr >= 1,
        ;
        assert(j < 2 * t - 1) by (nonlinear_arith)
            requires
                j * kr <= b - pos - 4,
                b - pos - 4 < (2 * t - 1) * kr,
                kr >= 1,
        ;
        lemma_slots_at(nv, bytes, pos + 4, 2 * t - 1, k, j);
        assert(slot_bytes(nv, j, k) == zero_seq((k + 8) as nat));
        assert((j + 1) * kr <= (2 * t - 1) * kr) by (nonlinear_arith)
            requires
                j + 1 <= 2 * t - 1,
                kr >= 1,
        ;
        assert(pos + 4 + (j + 1) * kr <= bytes.len());
        assert(bytes.subrange(pos + 4 + j * kr, pos + 4 + (j + 1) * kr)[b - pos - 4 - j * kr]
            == bytes[b]);
        assert(zero_seq((k + 8) as nat)[b - pos - 4 - j * kr] == 0u8);
    }
    // each child slot reads its field
    assert forall|j: int| 0 <= j < 2 * t implies le_val(
        bytes.subrange(pos + 4 + sl + j * 8, pos + 4 + sl + (j + 1) * 8),
    ) == child_field(#[trigger] nv.children[j], t, k) by {
        assert(2 * t as int * 8 == 2 * t * 8) by (nonlinear_arith);
        assert((j + 1) * 8 <= 2 * t as int * 8) by (nonlinear_arith)
            requires
                j + 1 <= 2 * t as int,
        ;
        lemma_kids_at(nv, bytes, pos + 4 + sl, 2 * t as int, t, k, j);
        assert(child_field(nv.children[j], t, k) < pow256(8)) by {
            if nv.children[j] >= 0 {
                assert((nv.children[j] as int) * node_size(t, k) + node_size(t, k) <= num
                    * node_size(t, k) && 0 <= (nv.children[j] as int) * node_size(t, k)) by (nonlinear_arith)
                    requires
                        0 <= nv.children[j] as int,
                        nv.children[j] as int + 1 <= num,
                        node_size(t, k) >= 1,
                ;
                assert(node_off(nv.children[j] as int, t, k) <= node_off(num, t, k) - ns);
            }
        }
        lemma_le_round_trip(child_field(nv.children[j], t, k), 8);
    }
}

/// Each node of a packed arena region stands at its own offset.
#[verifier::rlimit(60)]
proof fn lemma_arena_at(nodes: Seq<NodeV>, bytes: Seq<u8>, start: int, m: int, t: nat, k: nat, i: int)
    requires
        0 <= i < m <= nodes.len(),
        0 <= start,
        t >= 1,
        forall|j: int|
            0 <= j < nodes.len() ==> (#[trigger] nodes[j]).values.len() == nodes[j].keys.len()
                && (forall|q: int|
                0 <= q < nodes[j].keys.len() ==> (#[trigger] nodes[j].keys[q]).len() == k),
        start + m * node_size(t, k) <= bytes.len(),
        arena_bytes(nodes, m, t, k) == bytes.subrange(start, start + m * node_size(t, k)),
    ensures
        node_bytes(nodes[i], t, k) == bytes.subrange(
            start + i * node_size(t, k),
            start + (i + 1) * node_size(t, k),
        ),
    decreases m,
{
    let ns = node_size(t, k);
    lemma_arena_bytes_len(nodes, m - 1, t, k);
    lemma_node_bytes_len(nodes[m - 1], t, k);
    assert((m - 1) * ns + ns == m * ns) by (nonlinear_arith);
    assert(0 <= (m - 1) * ns) by (nonlinear_arith)
        requires
            m >= 1,
            ns >= 0,
    ;
    assert(bytes.subrange(start, start + m * ns) =~= bytes.subrange(start, start + (m - 1) * ns)
        + bytes.subrange(start + (m - 1) * ns, start + m * ns));
    lemma_concat_peel(
        arena_bytes(nodes, m - 1, t, k),
        node_bytes(nodes[m - 1], t, k),
        bytes.subrange(start, start + (m - 1) * ns),
        bytes.subrange(start + (m - 1) * ns, start + m * ns),
    );
    if i < m - 1 {
        lemma_arena_at(nodes, bytes, start, m - 1, t, k, i);
    }
}

/// What an index image spells when it is canonical: the header fields and
/// the byte region of every node.
proof fn lemma_canonical_index_facts(bytes: Seq<u8>, iv: IndexV)
    requires
        arena_shaped(iv),
        iv.file_fits(),
        bytes == index_bytes(iv),
    ensures
        bytes.len() == 14 + iv.nodes.len() * node_size(iv.t, iv.keysize),
        le_val(bytes.subrange(0, 4)) == iv.t,
        le_val(bytes.subrange(4, 12)) == node_off(iv.root, iv.t, iv.keysize),
        le_val(bytes.subrange(12, 14)) == iv.keysize,
        node_size(iv.t, iv.keysize) >= 1,
        forall|i: int|
            0 <= i < iv.nodes.len() ==> node_bytes(#[trigger] iv.nodes[i], iv.t, iv.keysize)
                == bytes.subrange(
                14 + i * node_size(iv.t, iv.keysize),
                14 + (i + 1) * node_size(iv.t, iv.keysize),
            ),
{
    let t = iv.t;
    let k = iv.keysize;
    let ns = node_size(t, k);
    let r1 = node_off(iv.root, t, k) as nat;
    lemma_pow256_8();
    lemma_le_bytes_len(iv.t, 4);
    lemma_le_bytes_len(r1, 8);
    lemma_le_bytes_len(iv.keysize, 2);
    assert((2 * t - 1) * (k + 8) >= 0) by (nonlinear_arith)
        requires
            t >= 1,
    ;
    assert(2 * t * 8 >= 0) by (nonlinear_arith)
        requires
            t >= 0,
    ;
    assert(ns >= 1);
    lemma_arena_bytes_len(iv.nodes, iv.nodes.len() as int, t, k);
    assert(bytes =~= bytes.subrange(0, 4) + bytes.subrange(4, 12) + bytes.subrange(12, 14)
        + bytes.subrange(14, bytes.len() as int));
    lemma_concat_peel(
        le_bytes(iv.t, 4) + le_bytes(r1, 8) + le_bytes(iv.keysize, 2),
        arena_bytes(iv.nodes, iv.nodes.len() as int, t, k),
        bytes.subrange(0, 4) + bytes.subrange(4, 12) + bytes.subrange(12, 14),
        bytes.subrange(14, bytes.len() as int),
    );
    lemma_concat_peel(
        le_bytes(iv.t, 4) + le_bytes(r1, 8),
        le_bytes(iv.keysize, 2),
        bytes.subrange(0, 4) + bytes.subrange(4, 12),
        bytes.subrange(12, 14),
    );
    lemma_concat_peel(le_bytes(iv.t, 4), le_bytes(r1, 8), bytes.subrange(0, 4), bytes.subrange(4, 12));
    lemma_le_round_trip(iv.t, 4);
    lemma_le_round_trip(iv.keysize, 2);
    assert(node_off(iv.root, t, k) <= iv.file_size()) by {
        assert(iv.root * ns + ns <= iv.nodes.len() * ns && 0 <= iv.root * ns) by (nonlinear_arith)
            requires
                0 <= iv.root,
                iv.root + 1 <= iv.nodes.len(),
                ns >= 1,
        ;
    }
    lemma_le_round_trip(r1, 8);
    assert forall|i: int| 0 <= i < iv.nodes.len() implies node_bytes(
        #[trigger] iv.nodes[i],
        t,
        k,
    ) == bytes.subrange(14 + i * ns, 14 + (i + 1) * ns) by {
        lemma_arena_at(iv.nodes, bytes, 14, iv.nodes.len() as int, t, k, i);
    }
}

/// Parse one node from its fixed-width region.  `Ok` is returned exactly for
/// regions in the canonical layout, and the parsed node re-serializes to the
/// very same bytes.
fn parse_node(bytes: &Vec<u8>, pos: usize, t: u32, keysize: u16, ns: u64, num64: u64) -> (res:
    Result<Node, StoreError>)
    requires
        2 <= t <= 0x4000_0000,
        ns as int == node_size(t as nat, keysize as nat),
        pos + ns as int <= bytes@.len(),
        num64 <= 0x7FFF_FFFF_FFFF_FFFF,
        node_off(num64 as int, t as nat, keysize as nat) <= 0xFFFF_FFFF_FFFF_FFFF,
    ensures
        match res {
            Ok(node) => node_bytes(node@, t as nat, keysize as nat) == bytes@.subrange(
                pos as int,
                pos as int + ns as int,
            ) && node_shaped(node@, t as nat, keysize as nat, num64 as int),
            Err(e) => e == StoreError::Corrupt,
        },
        (exists|nv: NodeV|
            node_shaped(nv, t as nat, keysize as nat, num64 as int) && bytes@.subrange(
                pos as int,
                pos as int + ns as int,
            ) == node_bytes(nv, t as nat, keysize as nat)) ==> res is Ok,
{
    let ghost tn = t as nat;
    let ghost kn = keysize as nat;
    let blen = bytes.len();
    proof {
        lemma_pow256_8();
        assert((2 * tn - 1) * (kn + 8) >= 0) by (nonlinear_arith)
            requires
                tn >= 1,
        ;
        assert(2 * tn * 8 >= 0) by (nonlinear_arith)
            requires
                tn >= 0,
        ;
    }
    let n64 = read_le(bytes, pos, 4);
    if n64 > 2 * (t as u64) - 1 {
        proof {
            if exists|nv: NodeV|
                node_shaped(nv, t as nat, keysize as nat, num64 as int) && bytes@.subrange(
                    pos as int,
                    pos as int + ns as int,
                ) == node_bytes(nv, t as nat, keysize as nat) {
                let nv0 = choose|nv: NodeV|
                    node_shaped(nv, t as nat, keysize as nat, num64 as int) && bytes@.subrange(
                        pos as int,
                        pos as int + ns as int,
                    ) == node_bytes(nv, t as nat, keysize as nat);
                lemma_canonical_node_facts(
                    bytes@,
                    pos as int,
                    t as nat,
                    keysize as nat,
                    ns as int,
                    num64 as int,
                    nv0,
                );
                assert(n64 as nat == nv0.keys.len());
                assert(false);
            }
        }
        return Err(StoreError::Corrupt);
    }
    let n = n64 as usize;
    let slots = 2 * (t as usize) - 1;
    let kr = keysize as usize + 8;
    let mut keys: Vec<Vec<u8>> = Vec::new();
    let mut values: Vec<u64> = Vec::new();
    let mut spos: usize = pos + 4;
    let mut j: usize = 0;
    proof {
        assert(0 * ((kn + 8) as int) == 0) by (nonlinear_arith);
        assert(slots * ((kn + 8) as int) == (2 * tn - 1) * (kn + 8)) by (nonlinear_arith)
            requires
                slots == 2 * tn - 1,
        ;
    }
    while j < slots
        invariant
            j <= slots,
            n <= slots,
            slots == 2 * tn - 1,
            kr == kn + 8,
            kn == keysize as nat,
            2 <= tn <= 0x4000_0000,
            tn == t as nat,
            ns as int == node_size(tn, kn),
            1 <= ns,
            num64 <= 0x7FFF_FFFF_FFFF_FFFF,
            node_off(num64 as int, tn, kn) <= 0xFFFF_FFFF_FFFF_FFFF,
            n as nat == le_val(bytes@.subrange(pos as int, pos as int + 4)),
            spos == pos + 4 + j * (kr as int),
            pos + 4 + slots * (kr as int) + 2 * tn * 8 == pos + ns,
            pos + ns as int <= blen,
            blen == bytes@.len(),
            n64 == n,
            keys@.len() == (if j < n {
                j as int
            } else {
                n as int
            }),
            values@.len() == keys@.len(),
            forall|q: int|
                0 <= q < keys@.len() ==> #[trigger] keys@[q]@ == bytes@.subrange(
                    pos + 4 + q * (kr as int),
                    pos + 4 + q * (kr as int) + kn,
                ),
            forall|q: int|
                0 <= q < values@.len() ==> #[trigger] values@[q] as nat == le_val(
                    bytes@.subrange(
                        pos + 4 + q * (kr as int) + kn,
                        pos + 4 + (q + 1) * (kr as int),
                    ),
                ),
            forall|b: int|
                pos + 4 + n * (kr as int) <= b < pos + 4 + j * (kr as int) ==> bytes@[b] == 0u8,
        decreases slots - j,
    {
        proof {
            assert((j + 1) * (kr as int) == j * (kr as int) + kr) by (nonlinear_arith);
            assert(j * (kr as int) <= slots * (kr as int) && (j + 1) * (kr as int) <= slots * (
            kr as int)) by (nonlinear_arith)
                requires
                    0 <= j,
                    j + 1 <= slots,
                    kr >= 8,
            ;
            assert(2 * tn * 8 >= 0) by (nonlinear_arith)
                requires
                    tn >= 0,
            ;
            assert(spos + kr <= pos + 4 + slots * (kr as int));
            assert(spos + kr <= pos + ns);
            assert(spos + kr <= blen);
        }
        if j < n {
            let kb = sub_bytes(bytes, spos, spos + keysize as usize);
            let v = read_le(bytes, spos + keysize as usize, 8);
            keys.push(kb);
            values.push(v);
        } else {
            if !is_zero_range(bytes, spos, spos + kr) {
                proof {
                    if exists|nv: NodeV|
                        node_shaped(nv, tn, kn, num64 as int) && bytes@.subrange(
                            pos as int,
                            pos as int + ns as int,
                        ) == node_bytes(nv, tn, kn) {
                        let nv0 = choose|nv: NodeV|
                            node_shaped(nv, tn, kn, num64 as int) && bytes@.subrange(
                                pos as int,
                                pos as int + ns as int,
                            ) == node_bytes(nv, tn, kn);
                        lemma_canonical_node_facts(
                            bytes@,
                            pos as int,
                            tn,
                            kn,
                            ns as int,
                            num64 as int,
                            nv0,
                        );
                        assert(nv0.keys.len() == n);
                        assert(n * (kr as int) <= j * (kr as int) && (j + 1) * (kr as int) <= (2
                            * tn - 1) * (kr as int)) by (nonlinear_arith)
                            requires
                                n <= j,
                                j + 1 <= 2 * tn - 1,
                                kr >= 1,
                        ;
                        assert forall|b: int| spos <= b < spos + kr implies bytes@[b] == 0u8 by {
                            assert(pos + 4 + nv0.keys.len() * ((kn + 8) as int) <= b < pos + 4 + (2
                                * tn - 1) * ((kn + 8) as int));
                        }
                        assert(false);
                    }
                }
                return Err(StoreError::Corrupt);
            }
        }
        proof {
            if j < n {
                assert((j + 1) * (kr as int) <= n * (kr as int)) by (nonlinear_arith)
                    requires
                        j + 1 <= n,
                        kr >= 0,
                ;
            } else {
                assert(n * (kr as int) <= j * (kr as int)) by (nonlinear_arith)
                    requires
                        n <= j,
                        kr >= 0,
                ;
                assert forall|b: int|
                    pos + 4 + n * (kr as int) <= b < pos + 4 + (j + 1) * (kr as int) implies bytes@[b]
                    == 0u8 by {
                    if b >= pos + 4 + j * (kr as int) {
                        assert(spos <= b < spos + kr);
                    }
                }
            }
        }
        spos = spos + kr;
        j = j + 1;
    }
    let kids = 2 * (t as usize);
    let mut children: Vec<i64> = Vec::new();
    let mut cpos: usize = spos;
    let mut j: usize = 0;
    proof {
        assert(2 * tn * 8 == kids * 8) by (nonlinear_arith)
            requires
                kids == 2 * tn,
        ;
    }
    while j < kids
        invariant
            j <= kids,
            kids == 2 * tn,
            2 <= tn <= 0x4000_0000,
            tn == t as nat,
            kn == keysize as nat,
            1 <= ns,
            node_off(num64 as int, tn, kn) <= 0xFFFF_FFFF_FFFF_FFFF,
            cpos == pos + 4 + slots * (kr as int) + j * 8,
            slots == 2 * tn - 1,
            kr == kn + 8,
            pos + 4 + slots * (kr as int) + kids * 8 == pos + ns,
            pos + ns as int <= blen,
            blen == bytes@.len(),
            ns as int == node_size(tn, kn),
            num64 <= 0x7FFF_FFFF_FFFF_FFFF,
            children@.len() == j,
            forall|q: int| 0 <= q < j ==> -1 <= #[trigger] children@[q] && (children@[q] as int) < num64 as int,
            forall|q: int|
                0 <= q < j ==> child_field(#[trigger] children@[q], tn, kn) == le_val(
                    bytes@.subrange(
                        pos + 4 + slots * (kr as int) + q * 8,
                        pos + 4 + slots * (kr as int) + (q + 1) * 8,
                    ),
                ),
        decreases kids - j,
    {
        let v = read_le(bytes, cpos, 8);
        proof {
            // on a canonical region, this slot reads a child field
            if exists|nv: NodeV|
                node_shaped(nv, tn, kn, num64 as int) && bytes@.subrange(
                    pos as int,
                    pos as int + ns as int,
                ) == node_bytes(nv, tn, kn) {
                let nv0 = choose|nv: NodeV|
                    node_shaped(nv, tn, kn, num64 as int) && bytes@.subrange(
                        pos as int,
                        pos as int + ns as int,
                    ) == node_bytes(nv, tn, kn);
                lemma_canonical_node_facts(
                    bytes@,
                    pos as int,
                    tn,
                    kn,
                    ns as int,
                    num64 as int,
                    nv0,
                );
                assert(slots * (kr as int) == (2 * tn - 1) * ((kn + 8) as int)) by (nonlinear_arith)
                    requires
                        slots == 2 * tn - 1,
                        kr == kn + 8,
                ;
                assert(v as nat == child_field(nv0.children[j as int], tn, kn));
                lemma_child_field_bound(nv0.children[j as int], tn, kn, num64 as int);
                if nv0.children[j as int] >= 0 {
                    let c0 = nv0.children[j as int] as int;
                    assert(v as int == 14 + c0 * (ns as int));
                    assert(v != u64::MAX);
                    assert(v >= 14);
                    vstd::arithmetic::div_mod::lemma_mod_multiples_basic(c0, ns as int);
                    vstd::arithmetic::div_mod::lemma_div_multiples_vanish(c0, ns as int);
                    assert((v - 14) as int % ns as int == 0);
                    assert((v - 14) as int / ns as int == c0);
                    assert(c0 < num64 as int);
                } else {
                    assert(v as nat == 0xFFFF_FFFF_FFFF_FFFF);
                }
            }
        }
        let c: i64;
        if v == u64::MAX {
            c = -1;
        } else {
            if v < 14 {
                return Err(StoreError::Corrupt);
            }
            let d = v - 14;
            if d % ns != 0 {
                return Err(StoreError::Corrupt);
            }
            let c64 = d / ns;
            if c64 >= num64 {
                return Err(StoreError::Corrupt);
            }
            proof {
                vstd::arithmetic::div_mod::lemma_fundamental_div_mod(d as int, ns as int);
            }
            c = c64 as i64;
            proof {
                assert(c as int == c64 as int);
                assert((c as int) * (ns as int) == d as int) by (nonlinear_arith)
                    requires
                        d as int == (ns as int) * (d as int / ns as int) + d as int % ns as int,
                        d as int % ns as int == 0,
                        c as int == d as int / ns as int,
                ;
                assert(child_field(c, tn, kn) == v as nat);
            }
        }
        children.push(c);
        j = j + 1;
        cpos = cpos + 8;
    }
    let ghost gkeys = keys@;
    let node = Node { keys, values, children };
    proof {
        let nv = node@;
        assert(node.keys@ == gkeys);
        assert(forall|q: int| 0 <= q < nv.keys.len() ==> #[trigger] nv.keys[q] == gkeys[q]@);
        let seg = bytes@.subrange(pos as int, pos + ns as int);
        lemma_pow256_8();
        // the count field
        assert(nv.keys.len() == n);
        assert(le_bytes(nv.keys.len(), 4) == bytes@.subrange(pos as int, pos + 4)) by {
            lemma_le_bytes_of_val(bytes@.subrange(pos as int, pos + 4));
        }
        // each key/value slot re-serializes to its region
        assert forall|q: int| 0 <= q < slots implies #[trigger] slot_bytes(nv, q, kn)
            == bytes@.subrange(
            pos + 4 + q * (kr as int),
            pos + 4 + (q + 1) * (kr as int),
        ) by {
            assert((q + 1) * (kr as int) == q * (kr as int) + kr) by (nonlinear_arith);
            assert(0 <= q * (kr as int) && (q + 1) * (kr as int) <= slots * (kr as int)) by (nonlinear_arith)
                requires
                    0 <= q,
                    q + 1 <= slots,
                    kr >= 8,
            ;
            if q < n {
                assert(nv.keys[q] == bytes@.subrange(
                    pos + 4 + q * (kr as int),
                    pos + 4 + q * (kr as int) + kn,
                ));
                lemma_le_bytes_of_val(
                    bytes@.subrange(
                        pos + 4 + q * (kr as int) + kn,
                        pos + 4 + (q + 1) * (kr as int),
                    ),
                );
                assert(slot_bytes(nv, q, kn) =~= bytes@.subrange(
                    pos + 4 + q * (kr as int),
                    pos + 4 + (q + 1) * (kr as int),
                ));
            } else {
                assert(slot_bytes(nv, q, kn) == zero_seq((kn + 8) as nat));
                assert(n * (kr as int) <= q * (kr as int)) by (nonlinear_arith)
                    requires
                        n <= q,
                        kr >= 0,
                ;
                assert(slot_bytes(nv, q, kn) =~= bytes@.subrange(
                    pos + 4 + q * (kr as int),
                    pos + 4 + (q + 1) * (kr as int),
                ));
            }
        }
        lemma_slots_from_regions(nv, bytes@, pos + 4, slots as int, kn);
        // each child slot re-serializes to its region
        assert forall|q: int| 0 <= q < kids implies le_bytes(
            #[trigger] child_field(nv.children[q], tn, kn),
            8,
        ) == bytes@.subrange(
            pos + 4 + slots * (kr as int) + q * 8,
            pos + 4 + slots * (kr as int) + (q + 1) * 8,
        ) by {
            lemma_le_bytes_of_val(
                bytes@.subrange(
                    pos + 4 + slots * (kr as int) + q * 8,
                    pos + 4 + slots * (kr as int) + (q + 1) * 8,
                ),
            );
        }
        lemma_kids_from_regions(nv, bytes@, pos + 4 + slots * (kr as int), kids as int, tn, kn);
        assert(node_shaped(nv, tn, kn, num64 as int)) by {
            assert forall|q: int| 0 <= q < nv.keys.len() implies (#[trigger] nv.keys[q]).len()
                == kn by {
                assert(slot_bytes(nv, q, kn) == bytes@.subrange(
                    pos + 4 + q * (kr as int),
                    pos + 4 + (q + 1) * (kr as int),
                ));
                assert((q + 1) * (kr as int) == q * (kr as int) + kr) by (nonlinear_arith);
                assert(0 <= q * (kr as int) && (q + 1) * (kr as int) <= slots * (kr as int)) by (nonlinear_arith)
                    requires
                        0 <= q,
                        q + 1 <= slots,
                        kr >= 8,
                ;
                assert(slot_bytes(nv, q, kn).len() == kr);
                lemma_le_bytes_len(nv.values[q] as nat, 8);
            }
        }
        assert(slots * (kr as int) == (2 * tn - 1) * (kn + 8)) by (nonlinear_arith)
            requires
                slots == 2 * tn - 1,
                kr == kn + 8,
        ;
        assert(kids * 8 == 2 * tn * 8) by (nonlinear_arith)
            requires
                kids == 2 * tn,
        ;
        assert(node_bytes(nv, tn, kn) =~= seg);
    }
    Ok(node)
}

/// A node's byte size, computed at run time.
fn node_size_u64(t: u32, keysize: u16) -> (r: u64)
    requires
        1 <= t <= 0x4000_0000,
    ensures
        r as int == node_size(t as nat, keysize as nat),
{
    let t64 = t as u64;
    let k64 = keysize as u64;
    proof {
        assert((2 * t64 - 1) * (k64 + 8) <= 0x8000_0000 * 0x1_0007) by (nonlinear_arith)
            requires
                1 <= 2 * t64 - 1 <= 0x8000_0000,
                8 <= k64 + 8 <= 0x1_0007,
        ;
    }
    4 + (2 * t64 - 1) * (k64 + 8) + 2 * t64 * 8
}

/// Serialize one node in the fixed on-disk layout.
fn serialize_node(out: &mut Vec<u8>, node: &Node, t: u32, keysize: u16, Ghost(num): Ghost<int>)
    requires
        2 <= t <= 0x4000_0000,
        0 <= num,
        node_wf(node@, t as nat, keysize as nat, num),
        node_off(num, t as nat, keysize as nat) <= 0xFFFF_FFFF_FFFF_FFFF,
    ensures
        final(out)@ == old(out)@ + node_bytes(node@, t as nat, keysize as nat),
{
    let ghost nv = node@;
    let ghost tn = t as nat;
    let ghost kn = keysize as nat;
    let ghost base = out@.len() as int;
    proof {
        assert(forall|i: int| 0 <= i < node.keys@.len() ==> #[trigger] node.keys@[i]@ == nv.keys[i]);
        assert(node.values@ == nv.values);
        assert(node.children@ == nv.children);
        lemma_pow256_8();
    }
    let n = node.keys.len();
    push_le(out, n as u64, 4);
    let slots = 2 * (t as usize) - 1;
    let empty: Vec<u8> = Vec::new();
    let zeros = pad_bytes(&empty, keysize as usize + 8);
    proof {
        assert(zeros@ =~= zero_seq((kn + 8) as nat));
    }
    let mut j: usize = 0;
    while j < slots
        invariant
            j <= slots,
            slots == 2 * tn - 1,
            nv == node@,
            node_wf(nv, tn, kn, num),
            n == nv.keys.len(),
            forall|i: int| 0 <= i < node.keys@.len() ==> #[trigger] node.keys@[i]@ == nv.keys[i],
            node.values@ == nv.values,
            zeros@ == zero_seq((kn + 8) as nat),
            out@ =~= old(out)@ + le_bytes(nv.keys.len(), 4) + slots_upto(nv, j as int, kn),
        decreases slots - j,
    {
        let ghost prev = out@;
        if j < n {
            append_bytes(out, &node.keys[j]);
            let v = node.values[j];
            proof {
                lemma_pow256_8();
            }
            push_le(out, v, 8);
            proof {
                assert(slot_bytes(nv, j as int, kn) == nv.keys[j as int] + le_bytes(
                    nv.values[j as int] as nat,
                    8,
                ));
                assert(out@ =~= prev + slot_bytes(nv, j as int, kn));
            }
        } else {
            append_bytes(out, &zeros);
            proof {
                assert(slot_bytes(nv, j as int, kn) == zero_seq((kn + 8) as nat));
                assert(out@ =~= prev + slot_bytes(nv, j as int, kn));
            }
        }
        proof {
            assert(slots_upto(nv, j as int + 1, kn) == slots_upto(nv, j as int, kn) + slot_bytes(
                nv,
                j as int,
                kn,
            ));
            assert(out@ =~= old(out)@ + le_bytes(nv.keys.len(), 4) + slots_upto(
                nv,
                j as int + 1,
                kn,
            ));
        }
        j = j + 1;
    }
    let ns = node_size_u64(t, keysize);
    let kids = 2 * (t as usize);
    let mut j: usize = 0;
    while j < kids
        invariant
            j <= kids,
            kids == 2 * tn,
            nv == node@,
            node_wf(nv, tn, kn, num),
            node.children@ == nv.children,
            2 <= tn <= 0x4000_0000,
            kn <= 0xFFFF,
            0 <= num,
            ns as int == node_size(tn, kn),
            node_off(num, tn, kn) <= 0xFFFF_FFFF_FFFF_FFFF,
            out@ =~= old(out)@ + le_bytes(nv.keys.len(), 4) + slots_upto(nv, 2 * tn - 1, kn)
                + kids_upto(nv, j as int, tn, kn),
        decreases kids - j,
    {
        let ghost prev = out@;
        let c = node.children[j];
        proof {
            lemma_pow256_8();
            if c >= 0 {
                assert(child_ok(c, num)) by {
                    if !is_leaf(nv) {
                        if j as int > nv.keys.len() {
                            assert(nv.children[j as int] == -1i64);
                        }
                    } else {
                        assert(nv.children[j as int] == -1i64);
                    }
                }
                assert((c as int) * (ns as int) <= (num - 1) * (ns as int)) by (nonlinear_arith)
                    requires
                        0 <= c as int <= num - 1,
                        ns as int >= 1,
                ;
                assert((num - 1) * (ns as int) + (ns as int) == num * (ns as int)) by (nonlinear_arith);
                assert(14 + (c as int) * (ns as int) <= node_off(num, tn, kn) - ns as int);
            }
        }
        let field: u64 = if c < 0 {
            u64::MAX
        } else {
            14 + (c as u64) * ns
        };
        proof {
            assert(c == nv.children[j as int]);
            assert(field as nat == child_field(nv.children[j as int], tn, kn));
        }
        push_le(out, field, 8);
        proof {
            assert(kids_upto(nv, j as int + 1, tn, kn) == kids_upto(nv, j as int, tn, kn)
                + le_bytes(child_field(nv.children[j as int], tn, kn), 8));
            assert(out@ =~= prev + le_bytes(child_field(nv.children[j as int], tn, kn), 8));
            assert(out@ =~= old(out)@ + le_bytes(nv.keys.len(), 4) + slots_upto(nv, 2 * tn - 1, kn)
                + kids_upto(nv, j as int + 1, tn, kn));
        }
        j = j + 1;
    }
    proof {
        assert(out@ =~= old(out)@ + node_bytes(nv, tn, kn));
    }
}

/// An owned copy of a node.
fn copy_node(src: &Node) -> (r: Node)
    ensures
        r@ == src@,
{
    let keys = sub_keys(&src.keys, 0, src.keys.len());
    let values = sub_vals(&src.values, 0, src.values.len());
    let children = sub_children(&src.children, 0, src.children.len(), src.children.len());
    let r = Node { keys, values, children };
    proof {
        assert(r@.keys =~= src@.keys);
        assert(r@.values =~= src@.values);
        assert(r@.children =~= src@.children);
        assert(r@ =~= src@);
    }
    r
}

/// The first position in sorted `keys` whose key is strictly greater than
/// `pk` (`keys.len()` if there is none), found by a scan from the right past
/// every key greater than `pk`: equal keys are passed over, not matched.
fn upper_bound(keys: &Vec<Vec<u8>>, pk: &Vec<u8>) -> (p: usize)
    requires
        forall|i: int, j: int| 0 <= i <= j < keys@.len() ==> lex_le(keys@[i]@, keys@[j]@),
    ensures
        p <= keys@.len(),
        forall|j: int| 0 <= j < p ==> lex_le(keys@[j]@, pk@),
        forall|j: int| p <= j < keys@.len() ==> !lex_le(keys@[j]@, pk@),
{
    let mut p = keys.len();
    while p > 0 && !bytes_le(&keys[p - 1], pk)
        invariant
            p <= keys@.len(),
            forall|i: int, j: int| 0 <= i <= j < keys@.len() ==> lex_le(keys@[i]@, keys@[j]@),
            forall|j: int| p <= j < keys@.len() ==> !lex_le(keys@[j]@, pk@),
        decreases p,
    {
        p = p - 1;
    }
    proof {
        if p > 0 {
            assert forall|j: int| 0 <= j < p implies lex_le(keys@[j]@, pk@) by {
                lemma_lex_le_trans(keys@[j]@, keys@[p - 1]@, pk@);
            }
        }
    }
    p
}

/// A vector of `n` absent-child markers.
fn neg_ones(n: usize) -> (r: Vec<i64>)
    ensures
        r@.len() == n,
        forall|i: int| 0 <= i < n ==> r@[i] == -1i64,
{
    let mut r: Vec<i64> = Vec::new();
    let mut i: usize = 0;
    while i < n
        invariant
            i <= n,
            r@.len() == i,
            forall|j: int| 0 <= j < i ==> r@[j] == -1i64,
        decreases n - i,
    {
        r.push(-1);
        i = i + 1;
    }
    r
}

/// The first position in sorted `keys` whose key is `>=` `pk`
/// (`keys.len()` if there is none), found by binary search.
fn lower_bound(keys: &Vec<Vec<u8>>, pk: &Vec<u8>) -> (lo: usize)
    requires
        forall|i: int, j: int|
            0 <= i <= j < keys@.len() ==> lex_le(keys@[i]@, keys@[j]@),
    ensures
        lo <= keys@.len(),
        forall|j: int| 0 <= j < lo ==> !lex_le(pk@, keys@[j]@),
        forall|j: int| lo <= j < keys@.len() ==> lex_le(pk@, keys@[j]@),
{
    let mut low: usize = 0;
    let mut high: usize = keys.len();
    while low < high
        invariant
            low <= high <= keys@.len(),
            forall|i: int, j: int|
                0 <= i <= j < keys@.len() ==> lex_le(keys@[i]@, keys@[j]@),
            forall|j: int| 0 <= j < low ==> !lex_le(pk@, keys@[j]@),
            forall|j: int| high <= j < keys@.len() ==> lex_le(pk@, keys@[j]@),
        decreases high - low,
    {
        let mid = low + (high - low) / 2;
        if bytes_le(pk, &keys[mid]) {
            proof {
                assert forall|j: int| mid <= j < keys@.len() implies lex_le(pk@, keys@[j]@) by {
                    lemma_lex_le_trans(pk@, keys@[mid as int]@, keys@[j]@);
                }
            }
            high = mid;
        } else {
            proof {
                assert forall|j: int| 0 <= j <= mid implies !lex_le(pk@, keys@[j]@) by {
                    if lex_le(pk@, keys@[j]@) {
                        lemma_lex_le_trans(pk@, keys@[j]@, keys@[mid as int]@);
                    }
                }
            }
            low = mid + 1;
        }
    }
    low
}

} // verus!
