//! The mathematical model of the ordered map's node arena.
//!
//! A tree node records its own arena index (`id`), its key, the arena indices
//! of its children, and the height of its subtree.  The spec functions here
//! read a whole arena as a `Seq<Node>` and say what it means for the subtree
//! rooted at an index to be a well-formed, height-exact, balanced binary
//! search tree; the lemmas give the framing and membership facts the tree
//! operations are proved against.

use vstd::prelude::*;
use vstd::bytes::u64_to_le_bytes;
use vstd::bytes::u64_from_le_bytes;
use vstd::bytes::spec_u64_to_le_bytes;
use vstd::bytes::spec_u64_from_le_bytes;
use vstd::bytes::lemma_auto_spec_u64_to_from_le_bytes;

verus! {

/// One node of the tree, as stored in the arena.
#[derive(Clone, Copy)]
pub struct Node {
    /// The node's own arena index.
    pub id: u64,
    /// The key stored in the node.
    pub key: u64,
    /// Arena index of the left child, if any.
    pub lft: Option<u64>,
    /// Arena index of the right child, if any.
    pub rgt: Option<u64>,
    /// Height of the subtree rooted here; a leaf has height 1.
    pub ht: u64,
}

impl Node {
    /// A fresh leaf node.
    pub fn of(id: u64, key: u64) -> (r: Self)
        ensures
            r == (Node { id, key, lft: None, rgt: None, ht: 1 }),
    {
        Self { id, key, lft: None, rgt: None, ht: 1 }
    }
}

/// The serialized form of a child link: a tag byte and eight payload bytes.
pub open spec fn spec_child_bytes(c: Option<u64>) -> Seq<u8> {
    match c {
        None => seq![0u8] + spec_u64_to_le_bytes(0),
        Some(x) => seq![1u8] + spec_u64_to_le_bytes(x),
    }
}

/// The serialized form of a node: 42 bytes.
pub open spec fn spec_node_bytes(n: Node) -> Seq<u8> {
    spec_u64_to_le_bytes(n.id) + spec_u64_to_le_bytes(n.key) + spec_child_bytes(n.lft)
        + spec_child_bytes(n.rgt) + spec_u64_to_le_bytes(n.ht)
}

/// Reads a child link back from its nine serialized bytes.
pub open spec fn spec_parse_child(b: Seq<u8>) -> Option<u64> {
    if b[0] == 1 {
        Some(spec_u64_from_le_bytes(b.subrange(1, 9)))
    } else {
        None
    }
}

/// Reads a node back from its 42 serialized bytes.
pub open spec fn spec_parse_node(b: Seq<u8>) -> Node {
    Node {
        id: spec_u64_from_le_bytes(b.subrange(0, 8)),
        key: spec_u64_from_le_bytes(b.subrange(8, 16)),
        lft: spec_parse_child(b.subrange(16, 25)),
        rgt: spec_parse_child(b.subrange(25, 34)),
        ht: spec_u64_from_le_bytes(b.subrange(34, 42)),
    }
}

/// Decoding inverts encoding.
pub proof fn lemma_node_codec(n: Node)
    ensures
        spec_node_bytes(n).len() == 42,
        spec_parse_node(spec_node_bytes(n)) == n,
{
    lemma_auto_spec_u64_to_from_le_bytes();
    let b = spec_node_bytes(n);
    assert(b.subrange(0, 8) =~= spec_u64_to_le_bytes(n.id));
    assert(b.subrange(8, 16) =~= spec_u64_to_le_bytes(n.key));
    assert(b.subrange(16, 25) =~= spec_child_bytes(n.lft));
    assert(b.subrange(25, 34) =~= spec_child_bytes(n.rgt));
    assert(b.subrange(34, 42) =~= spec_u64_to_le_bytes(n.ht));
    lemma_child_codec(n.lft);
    lemma_child_codec(n.rgt);
}

proof fn lemma_child_codec(c: Option<u64>)
    ensures
        spec_child_bytes(c).len() == 9,
        spec_parse_child(spec_child_bytes(c)) == c,
{
    lemma_auto_spec_u64_to_from_le_bytes();
    match c {
        None => {},
        Some(x) => {
            assert(spec_child_bytes(c).subrange(1, 9) =~= spec_u64_to_le_bytes(x));
        },
    }
}

/// Serializes a node.
pub fn encode_node(n: &Node) -> (r: Vec<u8>)
    ensures
        r@ == spec_node_bytes(*n),
        r@.len() == 42,
{
    proof {
        lemma_node_codec(*n);
    }
    let mut out = u64_to_le_bytes(n.id);
    let key_bytes = u64_to_le_bytes(n.key);
    out.extend_from_slice(key_bytes.as_slice());
    let lft_bytes = encode_child(n.lft);
    out.extend_from_slice(lft_bytes.as_slice());
    let rgt_bytes = encode_child(n.rgt);
    out.extend_from_slice(rgt_bytes.as_slice());
    let ht_bytes = u64_to_le_bytes(n.ht);
    out.extend_from_slice(ht_bytes.as_slice());
    proof {
        assert(out@ =~= spec_node_bytes(*n));
    }
    out
}

fn encode_child(c: Option<u64>) -> (r: Vec<u8>)
    ensures
        r@ == spec_child_bytes(c),
{
    let mut out: Vec<u8> = Vec::new();
    match c {
        None => {
            out.push(0);
            let payload = u64_to_le_bytes(0);
            out.extend_from_slice(payload.as_slice());
        },
        Some(x) => {
            out.push(1);
            let payload = u64_to_le_bytes(x);
            out.extend_from_slice(payload.as_slice());
        },
    }
    proof {
        assert(out@ =~= spec_child_bytes(c));
    }
    out
}

/// Deserializes a node; anything but 42 bytes is rejected.
pub fn decode_node(b: &[u8]) -> (r: Option<Node>)
    ensures
        r == if b@.len() == 42 {
            Some(spec_parse_node(b@))
        } else {
            None::<Node>
        },
{
    if b.len() != 42 {
        return None;
    }
    let id = u64_from_le_bytes(&b[0..8]);
    let key = u64_from_le_bytes(&b[8..16]);
    let lft = decode_child(&b[16..25]);
    let rgt = decode_child(&b[25..34]);
    let ht = u64_from_le_bytes(&b[34..42]);
    proof {
        assert(b@.subrange(0, 8) == b@.subrange(0int, 8int));
    }
    Some(Node { id, key, lft, rgt, ht })
}

fn decode_child(b: &[u8]) -> (r: Option<u64>)
    requires
        b@.len() == 9,
    ensures
        r == spec_parse_child(b@),
{
    if b[0] == 1 {
        Some(u64_from_le_bytes(&b[1..9]))
    } else {
        None
    }
}

/// The height recorded at index `i`, or zero outside the arena.
pub open spec fn ht_at(ns: Seq<Node>, i: int) -> u64 {
    if 0 <= i < ns.len() {
        ns[i].ht
    } else {
        0
    }
}

/// The height recorded for a child link, with a missing child at zero.
pub open spec fn child_ht(ns: Seq<Node>, c: Option<u64>) -> u64 {
    match c {
        None => 0,
        Some(j) => ht_at(ns, j as int),
    }
}

/// The larger of two heights.
pub open spec fn max64(a: u64, b: u64) -> u64 {
    if a >= b {
        a
    } else {
        b
    }
}

/// The set of keys stored in the subtree rooted at `i`.
pub open spec fn keys_at(ns: Seq<Node>, i: int) -> Set<u64>
    decreases ht_at(ns, i),
{
    if 0 <= i < ns.len() {
        let ls = match ns[i].lft {
            Some(l) => if 0 <= l < ns.len() && ns[l as int].ht < ns[i].ht {
                keys_at(ns, l as int)
            } else {
                Set::empty()
            },
            None => Set::empty(),
        };
        let rs = match ns[i].rgt {
            Some(r) => if 0 <= r < ns.len() && ns[r as int].ht < ns[i].ht {
                keys_at(ns, r as int)
            } else {
                Set::empty()
            },
            None => Set::empty(),
        };
        ls.union(rs).insert(ns[i].key)
    } else {
        Set::empty()
    }
}

/// The set of arena indices used by the subtree rooted at `i`.
pub open spec fn idxs_at(ns: Seq<Node>, i: int) -> Set<int>
    decreases ht_at(ns, i),
{
    if 0 <= i < ns.len() {
        let ls = match ns[i].lft {
            Some(l) => if 0 <= l < ns.len() && ns[l as int].ht < ns[i].ht {
                idxs_at(ns, l as int)
            } else {
                Set::empty()
            },
            None => Set::empty(),
        };
        let rs = match ns[i].rgt {
            Some(r) => if 0 <= r < ns.len() && ns[r as int].ht < ns[i].ht {
                idxs_at(ns, r as int)
            } else {
                Set::empty()
            },
            None => Set::empty(),
        };
        ls.union(rs).insert(i)
    } else {
        Set::empty()
    }
}

/// The subtree rooted at `i` is a well-formed, height-exact binary search
/// tree: indices in range, `id` fields true to their slots, child heights
/// strictly below the parent's, heights computed exactly, and keys ordered.
/// (Balance is stated separately by [`bal_at`].)
pub open spec fn wf_at(ns: Seq<Node>, i: int) -> bool
    decreases ht_at(ns, i),
{
    if 0 <= i < ns.len() {
        let n = ns[i];
        let lok = match n.lft {
            Some(l) => if 0 <= l < ns.len() && ns[l as int].ht < n.ht {
                wf_at(ns, l as int) && (forall|k: u64|
                    keys_at(ns, l as int).contains(k) ==> k < n.key)
            } else {
                false
            },
            None => true,
        };
        let rok = match n.rgt {
            Some(r) => if 0 <= r < ns.len() && ns[r as int].ht < n.ht {
                wf_at(ns, r as int) && (forall|k: u64|
                    keys_at(ns, r as int).contains(k) ==> k > n.key)
            } else {
                false
            },
            None => true,
        };
        n.id == i as u64 && n.ht == 1 + max64(child_ht(ns, n.lft), child_ht(ns, n.rgt)) && lok
            && rok
    } else {
        false
    }
}

/// Every node of the subtree rooted at `i` is balanced: the heights of its
/// children differ by at most one.
pub open spec fn bal_at(ns: Seq<Node>, i: int) -> bool
    decreases ht_at(ns, i),
{
    if 0 <= i < ns.len() {
        let n = ns[i];
        let lok = match n.lft {
            Some(l) => if 0 <= l < ns.len() && ns[l as int].ht < n.ht {
                bal_at(ns, l as int)
            } else {
                false
            },
            None => true,
        };
        let rok = match n.rgt {
            Some(r) => if 0 <= r < ns.len() && ns[r as int].ht < n.ht {
                bal_at(ns, r as int)
            } else {
                false
            },
            None => true,
        };
        lok && rok && child_ht(ns, n.lft) <= child_ht(ns, n.rgt) + 1 && child_ht(ns, n.rgt)
            <= child_ht(ns, n.lft) + 1
    } else {
        false
    }
}

/// The height a node gets after its children's heights are recomputed; the
/// increment saturates at the top of the range (unreachable for any tree the
/// arena can hold).
pub open spec fn new_ht(l: u64, r: u64) -> u64 {
    if max64(l, r) < u64::MAX {
        (max64(l, r) + 1) as u64
    } else {
        u64::MAX
    }
}

/// The strongest facts [`crate::tree_map`] needs before it checks the balance
/// at a node `n` held in memory: the arena agrees with `n`, the subtree under
/// it is well-formed, both children are balanced, and the balance factor is
/// off by at most two.
pub open spec fn balance_pre(ns: Seq<Node>, n: Node) -> bool {
    &&& 0 <= n.id < ns.len()
    &&& ns[n.id as int] == n
    &&& wf_at(ns, n.id as int)
    &&& match n.lft {
        Some(l) => bal_at(ns, l as int),
        None => true,
    }
    &&& match n.rgt {
        Some(r) => bal_at(ns, r as int),
        None => true,
    }
    &&& child_ht(ns, n.lft) <= child_ht(ns, n.rgt) + 2
    &&& child_ht(ns, n.rgt) <= child_ht(ns, n.lft) + 2
    &&& ht_at(ns, n.id as int) < u64::MAX - 1
}

/// A well-formed subtree contains its own index and key, and the key of every
/// index it uses.
pub proof fn lemma_members(ns: Seq<Node>, i: int)
    requires
        wf_at(ns, i),
    ensures
        idxs_at(ns, i).contains(i),
        keys_at(ns, i).contains(ns[i].key),
        forall|j: int| #[trigger] idxs_at(ns, i).contains(j) ==> 0 <= j < ns.len() && keys_at(
            ns,
            i,
        ).contains(ns[j].key) && ns[j].ht <= ns[i].ht,
        forall|k: u64| #[trigger] keys_at(ns, i).contains(k) ==> exists|j: int|
            idxs_at(ns, i).contains(j) && ns[j].key == k,
    decreases ht_at(ns, i),
{
    let n = ns[i];
    match n.lft {
        Some(l) => {
            lemma_members(ns, l as int);
        },
        None => {},
    }
    match n.rgt {
        Some(r) => {
            lemma_members(ns, r as int);
        },
        None => {},
    }
    assert forall|k: u64| #[trigger] keys_at(ns, i).contains(k) implies exists|j: int|
        idxs_at(ns, i).contains(j) && ns[j].key == k by {
        if k == n.key {
            assert(idxs_at(ns, i).contains(i) && ns[i].key == k);
        } else {
            match n.lft {
                Some(l) => {
                    if keys_at(ns, l as int).contains(k) {
                        let j = choose|j: int|
                            idxs_at(ns, l as int).contains(j) && ns[j].key == k;
                        assert(idxs_at(ns, i).contains(j) && ns[j].key == k);
                    }
                },
                None => {},
            }
            match n.rgt {
                Some(r) => {
                    if keys_at(ns, r as int).contains(k) {
                        let j = choose|j: int|
                            idxs_at(ns, r as int).contains(j) && ns[j].key == k;
                        assert(idxs_at(ns, i).contains(j) && ns[j].key == k);
                    }
                },
                None => {},
            }
        }
    }
}

/// The index sets of the two children of a well-formed node are disjoint from
/// each other and from the node's own index.
pub proof fn lemma_subtree_disjoint(ns: Seq<Node>, i: int)
    requires
        wf_at(ns, i),
    ensures
        match ns[i].lft {
            Some(l) => !idxs_at(ns, l as int).contains(i) && (match ns[i].rgt {
                Some(r) => idxs_at(ns, l as int).disjoint(idxs_at(ns, r as int)),
                None => true,
            }),
            None => true,
        },
        match ns[i].rgt {
            Some(r) => !idxs_at(ns, r as int).contains(i),
            None => true,
        },
{
    let n = ns[i];
    match n.lft {
        Some(l) => {
            lemma_members(ns, l as int);
            if idxs_at(ns, l as int).contains(i) {
                assert(keys_at(ns, l as int).contains(n.key));
            }
            match n.rgt {
                Some(r) => {
                    lemma_members(ns, r as int);
                    assert forall|j: int| idxs_at(ns, l as int).contains(j) implies !(
                    #[trigger] idxs_at(ns, r as int).contains(j)) by {
                        if idxs_at(ns, r as int).contains(j) {
                            assert(keys_at(ns, l as int).contains(ns[j].key));
                            assert(keys_at(ns, r as int).contains(ns[j].key));
                        }
                    }
                    assert(idxs_at(ns, l as int).disjoint(idxs_at(ns, r as int)));
                },
                None => {},
            }
        },
        None => {},
    }
    match n.rgt {
        Some(r) => {
            lemma_members(ns, r as int);
            if idxs_at(ns, r as int).contains(i) {
                assert(keys_at(ns, r as int).contains(n.key));
            }
        },
        None => {},
    }
}

/// Everything the spec functions say about a subtree depends only on the
/// arena slots the subtree uses: if another arena agrees on those slots, the
/// subtree reads the same there.
pub proof fn lemma_frame(ns1: Seq<Node>, ns2: Seq<Node>, i: int)
    requires
        wf_at(ns1, i),
        forall|j: int| #[trigger] idxs_at(ns1, i).contains(j) ==> 0 <= j < ns2.len() && ns2[j]
            == ns1[j],
    ensures
        wf_at(ns2, i),
        keys_at(ns2, i) == keys_at(ns1, i),
        idxs_at(ns2, i) == idxs_at(ns1, i),
        ht_at(ns2, i) == ht_at(ns1, i),
        bal_at(ns1, i) ==> bal_at(ns2, i),
    decreases ht_at(ns1, i),
{
    lemma_members(ns1, i);
    let n = ns1[i];
    match n.lft {
        Some(l) => {
            assert forall|j: int| #[trigger] idxs_at(ns1, l as int).contains(j) implies idxs_at(
                ns1,
                i,
            ).contains(j) by {}
            lemma_frame(ns1, ns2, l as int);
        },
        None => {},
    }
    match n.rgt {
        Some(r) => {
            assert forall|j: int| #[trigger] idxs_at(ns1, r as int).contains(j) implies idxs_at(
                ns1,
                i,
            ).contains(j) by {}
            lemma_frame(ns1, ns2, r as int);
        },
        None => {},
    }
    assert(idxs_at(ns1, i).contains(i));
    assert(ns2[i] == ns1[i]);
    assert(keys_at(ns2, i) =~= keys_at(ns1, i));
    assert(idxs_at(ns2, i) =~= idxs_at(ns1, i));
}

/// A subtree's height is at most the number of arena slots it uses.
pub proof fn lemma_ht_le_size(ns: Seq<Node>, i: int)
    requires
        wf_at(ns, i),
    ensures
        idxs_at(ns, i).finite(),
        ht_at(ns, i) <= idxs_at(ns, i).len(),
    decreases ht_at(ns, i),
{
    lemma_members(ns, i);
    lemma_subtree_disjoint(ns, i);
    let n = ns[i];
    let rest = idxs_at(ns, i).remove(i);
    match n.lft {
        Some(l) => {
            lemma_ht_le_size(ns, l as int);
            assert(idxs_at(ns, l as int).subset_of(rest)) by {
                lemma_members(ns, l as int);
                assert forall|j: int| #[trigger] idxs_at(ns, l as int).contains(j)
                    implies rest.contains(j) by {}
            }
        },
        None => {},
    }
    match n.rgt {
        Some(r) => {
            lemma_ht_le_size(ns, r as int);
            assert(idxs_at(ns, r as int).subset_of(rest)) by {
                lemma_members(ns, r as int);
                assert forall|j: int| #[trigger] idxs_at(ns, r as int).contains(j)
                    implies rest.contains(j) by {}
            }
        },
        None => {},
    }
    assert(idxs_at(ns, i).finite()) by {
        match n.lft {
            Some(l) => {
                match n.rgt {
                    Some(r) => {
                        assert(idxs_at(ns, i) =~= idxs_at(ns, l as int).union(
                            idxs_at(ns, r as int),
                        ).insert(i));
                    },
                    None => {
                        assert(idxs_at(ns, i) =~= idxs_at(ns, l as int).insert(i));
                    },
                }
            },
            None => {
                match n.rgt {
                    Some(r) => {
                        assert(idxs_at(ns, i) =~= idxs_at(ns, r as int).insert(i));
                    },
                    None => {
                        assert(idxs_at(ns, i) =~= Set::<int>::empty().insert(i));
                    },
                }
            },
        }
    }
    assert(rest.finite());
    assert(rest.insert(i) =~= idxs_at(ns, i));
    assert(idxs_at(ns, i).len() == rest.len() + 1);
    match n.lft {
        Some(l) => {
            vstd::set_lib::lemma_len_subset(idxs_at(ns, l as int), rest);
        },
        None => {},
    }
    match n.rgt {
        Some(r) => {
            vstd::set_lib::lemma_len_subset(idxs_at(ns, r as int), rest);
        },
        None => {},
    }
}

/// Well-formedness and balance descend to every slot a subtree uses.
pub proof fn lemma_wf_descend(ns: Seq<Node>, i: int, j: int)
    requires
        wf_at(ns, i),
        idxs_at(ns, i).contains(j),
    ensures
        wf_at(ns, j),
        bal_at(ns, i) ==> bal_at(ns, j),
    decreases ht_at(ns, i),
{
    if j != i {
        let n = ns[i];
        match n.lft {
            Some(l) => {
                if idxs_at(ns, l as int).contains(j) {
                    lemma_wf_descend(ns, l as int, j);
                }
            },
            None => {},
        }
        match n.rgt {
            Some(r) => {
                if idxs_at(ns, r as int).contains(j) {
                    lemma_wf_descend(ns, r as int, j);
                }
            },
            None => {},
        }
    }
}

/// Two disjoint finite sets have additive cardinality.
pub proof fn lemma_disjoint_union_len<A>(s1: Set<A>, s2: Set<A>)
    requires
        s1.finite(),
        s2.finite(),
        s1.disjoint(s2),
    ensures
        s1.union(s2).finite(),
        s1.union(s2).len() == s1.len() + s2.len(),
    decreases s1.len(),
{
    if s1.is_empty() {
        assert(s1.union(s2) =~= s2);
    } else {
        let a = s1.choose();
        assert(s1.remove(a).union(s2) =~= s1.union(s2).remove(a));
        lemma_disjoint_union_len(s1.remove(a), s2);
        assert(s1.union(s2).contains(a));
        assert(s1.union(s2).remove(a).insert(a) =~= s1.union(s2));
    }
}

/// A well-formed subtree holds exactly one key per arena slot it uses: its
/// key set and its index set have the same size.
pub proof fn lemma_keys_card(ns: Seq<Node>, i: int)
    requires
        wf_at(ns, i),
    ensures
        keys_at(ns, i).finite(),
        idxs_at(ns, i).finite(),
        keys_at(ns, i).len() == idxs_at(ns, i).len(),
    decreases ht_at(ns, i),
{
    lemma_members(ns, i);
    lemma_subtree_disjoint(ns, i);
    let n = ns[i];
    let kl = match n.lft {
        Some(l) => keys_at(ns, l as int),
        None => Set::<u64>::empty(),
    };
    let kr = match n.rgt {
        Some(r) => keys_at(ns, r as int),
        None => Set::<u64>::empty(),
    };
    let il = match n.lft {
        Some(l) => idxs_at(ns, l as int),
        None => Set::<int>::empty(),
    };
    let ir = match n.rgt {
        Some(r) => idxs_at(ns, r as int),
        None => Set::<int>::empty(),
    };
    match n.lft {
        Some(l) => {
            lemma_keys_card(ns, l as int);
        },
        None => {},
    }
    match n.rgt {
        Some(r) => {
            lemma_keys_card(ns, r as int);
        },
        None => {},
    }
    assert(kl.disjoint(kr)) by {
        assert forall|k: u64| kl.contains(k) implies !kr.contains(k) by {
            assert(k < n.key);
        }
    }
    assert(il.disjoint(ir));
    lemma_disjoint_union_len(kl, kr);
    lemma_disjoint_union_len(il, ir);
    assert(!kl.union(kr).contains(n.key)) by {
        if kl.contains(n.key) {
            assert(n.key < n.key);
        }
        if kr.contains(n.key) {
            assert(n.key > n.key);
        }
    }
    assert(!il.union(ir).contains(i));
    assert(keys_at(ns, i) =~= kl.union(kr).insert(n.key));
    assert(idxs_at(ns, i) =~= il.union(ir).insert(i));
    assert(keys_at(ns, i).len() == kl.union(kr).len() + 1);
    assert(idxs_at(ns, i).len() == il.union(ir).len() + 1);
}

/// In a well-formed subtree, distinct slots hold distinct keys.
pub proof fn lemma_key_injective(ns: Seq<Node>, i: int, j1: int, j2: int)
    requires
        wf_at(ns, i),
        idxs_at(ns, i).contains(j1),
        idxs_at(ns, i).contains(j2),
        ns[j1].key == ns[j2].key,
    ensures
        j1 == j2,
    decreases ht_at(ns, i),
{
    lemma_members(ns, i);
    lemma_subtree_disjoint(ns, i);
    let n = ns[i];
    if j1 != i && j2 != i {
        let inl1 = (match n.lft {
            Some(l) => idxs_at(ns, l as int).contains(j1),
            None => false,
        });
        let inl2 = (match n.lft {
            Some(l) => idxs_at(ns, l as int).contains(j2),
            None => false,
        });
        match n.lft {
            Some(l) => {
                lemma_members(ns, l as int);
            },
            None => {},
        }
        match n.rgt {
            Some(r) => {
                lemma_members(ns, r as int);
            },
            None => {},
        }
        if inl1 && inl2 {
            match n.lft {
                Some(l) => {
                    lemma_key_injective(ns, l as int, j1, j2);
                },
                None => {},
            }
        } else if !inl1 && !inl2 {
            match n.rgt {
                Some(r) => {
                    lemma_key_injective(ns, r as int, j1, j2);
                },
                None => {},
            }
        } else {
            // one key sits below this node's key and the other above
            match n.lft {
                Some(l) => {
                    match n.rgt {
                        Some(r) => {
                            if inl1 {
                                assert(keys_at(ns, l as int).contains(ns[j1].key));
                                assert(keys_at(ns, r as int).contains(ns[j2].key));
                            } else {
                                assert(keys_at(ns, l as int).contains(ns[j2].key));
                                assert(keys_at(ns, r as int).contains(ns[j1].key));
                            }
                            assert(false);
                        },
                        None => {},
                    }
                },
                None => {},
            }
        }
    } else if j1 == i && j2 != i {
        match n.lft {
            Some(l) => {
                if idxs_at(ns, l as int).contains(j2) {
                    lemma_members(ns, l as int);
                    assert(keys_at(ns, l as int).contains(ns[j2].key));
                    assert(false);
                }
            },
            None => {},
        }
        match n.rgt {
            Some(r) => {
                if idxs_at(ns, r as int).contains(j2) {
                    lemma_members(ns, r as int);
                    assert(keys_at(ns, r as int).contains(ns[j2].key));
                    assert(false);
                }
            },
            None => {},
        }
    } else if j2 == i && j1 != i {
        match n.lft {
            Some(l) => {
                if idxs_at(ns, l as int).contains(j1) {
                    lemma_members(ns, l as int);
                    assert(keys_at(ns, l as int).contains(ns[j1].key));
                    assert(false);
                }
            },
            None => {},
        }
        match n.rgt {
            Some(r) => {
                if idxs_at(ns, r as int).contains(j1) {
                    lemma_members(ns, r as int);
                    assert(keys_at(ns, r as int).contains(ns[j1].key));
                    assert(false);
                }
            },
            None => {},
        }
    }
}

/// Whether node `n` links to arena index `c`.
pub open spec fn links_to(n: Node, c: u64) -> bool {
    n.lft == Some(c) || n.rgt == Some(c)
}

/// In a well-formed subtree, links stay inside the subtree, never point at
/// its root, and every linked slot has exactly one parent.
pub proof fn lemma_links(ns: Seq<Node>, i: int)
    requires
        wf_at(ns, i),
        ns.len() <= u64::MAX,
    ensures
        forall|j: int, c: u64|
            idxs_at(ns, i).contains(j) && #[trigger] links_to(ns[j], c) ==> idxs_at(
                ns,
                i,
            ).contains(c as int) && c != j,
        forall|j: int| #[trigger] idxs_at(ns, i).contains(j) ==> !links_to(ns[j], i as u64),
        forall|j1: int, j2: int, c: u64|
            idxs_at(ns, i).contains(j1) && idxs_at(ns, i).contains(j2) && #[trigger] links_to(
                ns[j1],
                c,
            ) && #[trigger] links_to(ns[j2], c) ==> j1 == j2,
    decreases ht_at(ns, i),
{
    lemma_members(ns, i);
    lemma_subtree_disjoint(ns, i);
    let n = ns[i];
    match n.lft {
        Some(l) => {
            lemma_links(ns, l as int);
            lemma_members(ns, l as int);
        },
        None => {},
    }
    match n.rgt {
        Some(r) => {
            lemma_links(ns, r as int);
            lemma_members(ns, r as int);
        },
        None => {},
    }
    // links land inside the subtree and never at its root
    assert forall|j: int, c: u64|
        idxs_at(ns, i).contains(j) && #[trigger] links_to(ns[j], c) implies idxs_at(
        ns,
        i,
    ).contains(c as int) && c != j by {
        if j == i {
            match n.lft {
                Some(l) => {
                    if c == l {
                        assert(idxs_at(ns, l as int).contains(l as int));
                    }
                },
                None => {},
            }
            match n.rgt {
                Some(r) => {
                    if c == r {
                        assert(idxs_at(ns, r as int).contains(r as int));
                    }
                },
                None => {},
            }
            assert(ns[c as int].ht < n.ht);
        } else {
            match n.lft {
                Some(l) => {
                    if idxs_at(ns, l as int).contains(j) {
                        assert(idxs_at(ns, l as int).contains(c as int));
                    }
                },
                None => {},
            }
            match n.rgt {
                Some(r) => {
                    if idxs_at(ns, r as int).contains(j) {
                        assert(idxs_at(ns, r as int).contains(c as int));
                    }
                },
                None => {},
            }
        }
    }
    assert forall|j: int| #[trigger] idxs_at(ns, i).contains(j) implies !links_to(
        ns[j],
        i as u64,
    ) by {
        if links_to(ns[j], i as u64) {
            if j == i {
                match n.lft {
                    Some(l) => {
                        if l == i as u64 {
                            assert(ns[l as int].ht < n.ht);
                        }
                    },
                    None => {},
                }
                match n.rgt {
                    Some(r) => {
                        if r == i as u64 {
                            assert(ns[r as int].ht < n.ht);
                        }
                    },
                    None => {},
                }
                assert(false);
            } else {
                match n.lft {
                    Some(l) => {
                        if idxs_at(ns, l as int).contains(j) {
                            assert(idxs_at(ns, l as int).contains((i as u64) as int));
                            assert(idxs_at(ns, l as int).contains(i));
                            assert(false);
                        }
                    },
                    None => {},
                }
                match n.rgt {
                    Some(r) => {
                        if idxs_at(ns, r as int).contains(j) {
                            assert(idxs_at(ns, r as int).contains((i as u64) as int));
                            assert(idxs_at(ns, r as int).contains(i));
                            assert(false);
                        }
                    },
                    None => {},
                }
            }
        }
    }
    // a slot has at most one parent
    assert forall|j1: int, j2: int, c: u64|
        idxs_at(ns, i).contains(j1) && idxs_at(ns, i).contains(j2) && #[trigger] links_to(
            ns[j1],
            c,
        ) && #[trigger] links_to(ns[j2], c) implies j1 == j2 by {
        let cl = (match n.lft {
            Some(l) => idxs_at(ns, l as int),
            None => Set::<int>::empty(),
        });
        let cr = (match n.rgt {
            Some(r) => idxs_at(ns, r as int),
            None => Set::<int>::empty(),
        });
        if j1 == i && j2 != i {
            // c is a child root of i, so nothing below links it
            assert(cl.contains(j2) || cr.contains(j2));
            match n.lft {
                Some(l) => {
                    if c == l {
                        if cl.contains(j2) {
                            assert(idxs_at(ns, l as int).contains(c as int));
                            assert(!links_to(ns[j2], l));
                        }
                        if cr.contains(j2) {
                            assert(idxs_at(ns, r_of(ns, i)).contains(c as int));
                        }
                    }
                },
                None => {},
            }
            match n.rgt {
                Some(r) => {
                    if c == r {
                        if cr.contains(j2) {
                            assert(!links_to(ns[j2], r));
                        }
                        if cl.contains(j2) {
                            assert(idxs_at(ns, l_of(ns, i)).contains(c as int));
                        }
                    }
                },
                None => {},
            }
        } else if j2 == i && j1 != i {
            assert(cl.contains(j1) || cr.contains(j1));
            match n.lft {
                Some(l) => {
                    if c == l {
                        if cl.contains(j1) {
                            assert(!links_to(ns[j1], l));
                        }
                        if cr.contains(j1) {
                            assert(idxs_at(ns, r_of(ns, i)).contains(c as int));
                        }
                    }
                },
                None => {},
            }
            match n.rgt {
                Some(r) => {
                    if c == r {
                        if cr.contains(j1) {
                            assert(!links_to(ns[j1], r));
                        }
                        if cl.contains(j1) {
                            assert(idxs_at(ns, l_of(ns, i)).contains(c as int));
                        }
                    }
                },
                None => {},
            }
        } else if j1 != i && j2 != i {
            if cl.contains(j1) && cr.contains(j2) {
                assert(cl.contains(c as int) && cr.contains(c as int));
            }
            if cr.contains(j1) && cl.contains(j2) {
                assert(cl.contains(c as int) && cr.contains(c as int));
            }
        }
    }
}

/// The left child index of the node at `i`, when it has one.
pub open spec fn l_of(ns: Seq<Node>, i: int) -> int {
    ns[i].lft.unwrap() as int
}

/// The right child index of the node at `i`, when it has one.
pub open spec fn r_of(ns: Seq<Node>, i: int) -> int {
    ns[i].rgt.unwrap() as int
}

/// The node `n` with every mention of arena index `a` replaced by `b`: its
/// own identity and both child links.
pub open spec fn rename_node(n: Node, a: u64, b: u64) -> Node {
    Node {
        id: if n.id == a {
            b
        } else {
            n.id
        },
        key: n.key,
        lft: if n.lft == Some(a) {
            Some(b)
        } else {
            n.lft
        },
        rgt: if n.rgt == Some(a) {
            Some(b)
        } else {
            n.rgt
        },
        ht: n.ht,
    }
}

/// The renamed position of index `j` when `a` moves to `b`.
pub open spec fn rename_idx(j: int, a: u64, b: u64) -> int {
    if j == a as int {
        b as int
    } else {
        j
    }
}

/// Relocating one arena slot — every node of a subtree reappears, renamed,
/// with the slot `a` now at `b` — preserves the subtree's shape, keys,
/// heights and balance; its index set is renamed accordingly.
pub proof fn lemma_relabel(ns1: Seq<Node>, ns2: Seq<Node>, a: u64, b: u64, i: int)
    requires
        wf_at(ns1, i),
        ns1.len() <= u64::MAX,
        !idxs_at(ns1, i).contains(b as int),
        forall|j: int| #[trigger] idxs_at(ns1, i).contains(j) ==> 0 <= rename_idx(j, a, b)
            < ns2.len() && ns2[rename_idx(j, a, b)] == rename_node(ns1[j], a, b),
    ensures
        wf_at(ns2, rename_idx(i, a, b)),
        bal_at(ns1, i) ==> bal_at(ns2, rename_idx(i, a, b)),
        keys_at(ns2, rename_idx(i, a, b)) == keys_at(ns1, i),
        idxs_at(ns2, rename_idx(i, a, b)) == (if idxs_at(ns1, i).contains(a as int) {
            idxs_at(ns1, i).remove(a as int).insert(b as int)
        } else {
            idxs_at(ns1, i)
        }),
        ht_at(ns2, rename_idx(i, a, b)) == ht_at(ns1, i),
    decreases ht_at(ns1, i),
{
    lemma_members(ns1, i);
    let i2 = rename_idx(i, a, b);
    let n1 = ns1[i];
    let n2 = ns2[i2];
    assert(idxs_at(ns1, i).contains(i));
    assert(n2 == rename_node(n1, a, b));
    match n1.lft {
        Some(l) => {
            assert(idxs_at(ns1, i).contains(l as int)) by {
                lemma_members(ns1, l as int);
            }
            assert forall|j: int| #[trigger] idxs_at(ns1, l as int).contains(j) implies 0
                <= rename_idx(j, a, b) < ns2.len() && ns2[rename_idx(j, a, b)] == rename_node(
                ns1[j],
                a,
                b,
            ) by {
                assert(idxs_at(ns1, i).contains(j));
            }
            assert(!idxs_at(ns1, l as int).contains(b as int)) by {
                if idxs_at(ns1, l as int).contains(b as int) {
                    assert(idxs_at(ns1, i).contains(b as int));
                }
            }
            lemma_relabel(ns1, ns2, a, b, l as int);
        },
        None => {},
    }
    match n1.rgt {
        Some(r) => {
            assert(idxs_at(ns1, i).contains(r as int)) by {
                lemma_members(ns1, r as int);
            }
            assert forall|j: int| #[trigger] idxs_at(ns1, r as int).contains(j) implies 0
                <= rename_idx(j, a, b) < ns2.len() && ns2[rename_idx(j, a, b)] == rename_node(
                ns1[j],
                a,
                b,
            ) by {
                assert(idxs_at(ns1, i).contains(j));
            }
            assert(!idxs_at(ns1, r as int).contains(b as int)) by {
                if idxs_at(ns1, r as int).contains(b as int) {
                    assert(idxs_at(ns1, i).contains(b as int));
                }
            }
            lemma_relabel(ns1, ns2, a, b, r as int);
        },
        None => {},
    }
    assert(wf_at(ns2, i2)) by {
        match n1.lft {
            Some(l) => {
                let l2 = rename_idx(l as int, a, b);
                if l == a {
                    assert(n2.lft == Some(b));
                    assert(l2 == b as int);
                } else {
                    assert(n2.lft == Some(l));
                    assert(l2 == l as int);
                }
                assert(ht_at(ns2, l2) == ht_at(ns1, l as int));
                assert(wf_at(ns2, l2));
                assert(keys_at(ns2, l2) == keys_at(ns1, l as int));
                assert forall|k: u64| keys_at(ns2, l2).contains(k) implies k < n2.key by {
                    assert(keys_at(ns1, l as int).contains(k));
                }
            },
            None => {
                assert(n2.lft is None);
            },
        }
        match n1.rgt {
            Some(r) => {
                let r2 = rename_idx(r as int, a, b);
                if r == a {
                    assert(n2.rgt == Some(b));
                    assert(r2 == b as int);
                } else {
                    assert(n2.rgt == Some(r));
                    assert(r2 == r as int);
                }
                assert(ht_at(ns2, r2) == ht_at(ns1, r as int));
                assert(wf_at(ns2, r2));
                assert(keys_at(ns2, r2) == keys_at(ns1, r as int));
                assert forall|k: u64| keys_at(ns2, r2).contains(k) implies k > n2.key by {
                    assert(keys_at(ns1, r as int).contains(k));
                }
            },
            None => {
                assert(n2.rgt is None);
            },
        }
        assert(n2.id == i2 as u64);
        assert(n2.ht == n1.ht);
    }
    assert(keys_at(ns2, i2) =~= keys_at(ns1, i));
    assert(idxs_at(ns2, i2) =~= (if idxs_at(ns1, i).contains(a as int) {
        idxs_at(ns1, i).remove(a as int).insert(b as int)
    } else {
        idxs_at(ns1, i)
    })) by {
        match n1.lft {
            Some(l) => {},
            None => {},
        }
        match n1.rgt {
            Some(r) => {},
            None => {},
        }
    }
    if bal_at(ns1, i) {
        assert(bal_at(ns2, i2));
    }
}

/// The arena after the rotation that lifts the left child of `n` (the
/// in-memory copy of slot `n.id`) above it, exactly as the tree performs it:
/// `n` keeps its key but adopts the left child's right subtree, then the left
/// child adopts `n` as its right child, both heights recomputed in order.
pub open spec fn rotate_left_result(ns0: Seq<Node>, n: Node) -> Seq<Node> {
    let i = n.id as int;
    let l = n.lft.unwrap();
    let lnode = ns0[l as int];
    let h1 = new_ht(child_ht(ns0, lnode.rgt), child_ht(ns0, n.rgt));
    let n1 = Node { id: n.id, key: n.key, lft: lnode.rgt, rgt: n.rgt, ht: h1 };
    let nsb = ns0.update(i, n1);
    let h2 = new_ht(child_ht(nsb, lnode.lft), h1);
    nsb.update(l as int, Node { id: l, key: lnode.key, lft: lnode.lft, rgt: Some(n.id), ht: h2 })
}

/// The mirror image of [`rotate_left_result`]: the right child rises.
pub open spec fn rotate_right_result(ns0: Seq<Node>, n: Node) -> Seq<Node> {
    let i = n.id as int;
    let r = n.rgt.unwrap();
    let rnode = ns0[r as int];
    let h1 = new_ht(child_ht(ns0, n.lft), child_ht(ns0, rnode.lft));
    let n1 = Node { id: n.id, key: n.key, lft: n.lft, rgt: rnode.lft, ht: h1 };
    let nsb = ns0.update(i, n1);
    let h2 = new_ht(h1, child_ht(nsb, rnode.rgt));
    nsb.update(r as int, Node { id: r, key: rnode.key, lft: Some(n.id), rgt: rnode.rgt, ht: h2 })
}

/// Lifting the left child of a well-formed node rebuilds a well-formed
/// subtree over the same keys and the same arena slots, touching no slot
/// outside the subtree.
pub proof fn lemma_rotate_left_replay(ns0: Seq<Node>, n: Node, ns2: Seq<Node>)
    requires
        0 <= n.id < ns0.len(),
        n.lft is Some,
        wf_at(ns0.update(n.id as int, n), n.id as int),
        ht_at(ns0.update(n.id as int, n), n.id as int) < u64::MAX - 1,
        ns2 == rotate_left_result(ns0, n),
    ensures
        ({
            let i = n.id as int;
            let vns = ns0.update(i, n);
            let l = n.lft.unwrap() as int;
            &&& ns2.len() == ns0.len()
            &&& n.lft.unwrap() != n.id
            &&& 0 <= l < ns0.len()
            &&& wf_at(ns2, l)
            &&& wf_at(ns2, i)
            &&& ns2[l].lft == vns[l].lft
            &&& ns2[l].rgt == Some(n.id)
            &&& ns2[l].key == vns[l].key
            &&& ns2[i].lft == vns[l].rgt
            &&& ns2[i].rgt == n.rgt
            &&& keys_at(ns2, l) == keys_at(vns, i)
            &&& idxs_at(ns2, l) == idxs_at(vns, i)
            &&& ht_at(ns2, i) == new_ht(child_ht(vns, vns[l].rgt), child_ht(vns, n.rgt))
            &&& ht_at(ns2, l) == new_ht(child_ht(vns, vns[l].lft), ht_at(ns2, i))
            &&& child_ht(ns2, ns2[l].lft) == child_ht(vns, vns[l].lft)
            &&& child_ht(ns2, ns2[i].lft) == child_ht(vns, vns[l].rgt)
            &&& child_ht(ns2, ns2[i].rgt) == child_ht(vns, n.rgt)
            &&& (forall|j: int|
                0 <= j < ns0.len() && !idxs_at(vns, i).contains(j) ==> ns2[j] == ns0[j])
            &&& (match vns[l].lft {
                Some(a) => bal_at(vns, a as int) ==> bal_at(ns2, a as int),
                None => true,
            })
            &&& (match vns[l].rgt {
                Some(b) => bal_at(vns, b as int) ==> bal_at(ns2, b as int),
                None => true,
            })
            &&& (match n.rgt {
                Some(c) => bal_at(vns, c as int) ==> bal_at(ns2, c as int),
                None => true,
            })
        }),
{
    let i = n.id as int;
    let vns = ns0.update(i, n);
    let lu = n.lft.unwrap();
    let l = lu as int;
    assert(vns[i] == n);
    assert(0 <= l < ns0.len() && vns[l as int].ht < n.ht);
    assert(l != i);
    let lnode = ns0[l];
    assert(vns[l] == lnode);
    assert(wf_at(vns, l));
    lemma_subtree_disjoint(vns, i);
    lemma_subtree_disjoint(vns, l);
    lemma_members(vns, i);
    lemma_members(vns, l);
    assert(idxs_at(vns, i).contains(i));
    assert(idxs_at(vns, l).contains(l));
    assert(idxs_at(vns, i).contains(l));
    // heights involved are below the root's height, hence below u64::MAX - 1
    assert(child_ht(vns, lnode.rgt) <= ht_at(vns, l));
    let h1 = new_ht(child_ht(ns0, lnode.rgt), child_ht(ns0, n.rgt));
    let n1 = Node { id: n.id, key: n.key, lft: lnode.rgt, rgt: n.rgt, ht: h1 };
    let nsb = ns0.update(i, n1);
    let h2 = new_ht(child_ht(nsb, lnode.lft), h1);
    let l1 = Node { id: lu, key: lnode.key, lft: lnode.lft, rgt: Some(n.id), ht: h2 };
    assert(ns2 == nsb.update(l, l1));
    assert(ns2[i] == n1);
    assert(ns2[l] == l1);

    // the three moved subtrees contain neither `i` nor `l`
    match lnode.lft {
        Some(a) => {
            assert(idxs_at(vns, l).contains(a as int));
            assert(!idxs_at(vns, a as int).contains(l));
            assert(!idxs_at(vns, a as int).contains(i)) by {
                assert(forall|j: int| #[trigger] idxs_at(vns, a as int).contains(j) ==> idxs_at(
                    vns,
                    l,
                ).contains(j));
                assert(!idxs_at(vns, l).contains(i));
            }
            assert forall|j: int| #[trigger] idxs_at(vns, a as int).contains(j) implies 0 <= j
                < ns2.len() && ns2[j] == vns[j] by {
                assert(idxs_at(vns, l).contains(j));
            }
            lemma_frame(vns, ns2, a as int);
        },
        None => {},
    }
    match lnode.rgt {
        Some(b) => {
            assert(idxs_at(vns, l).contains(b as int));
            assert(!idxs_at(vns, b as int).contains(l));
            assert(!idxs_at(vns, b as int).contains(i)) by {
                assert(forall|j: int| #[trigger] idxs_at(vns, b as int).contains(j) ==> idxs_at(
                    vns,
                    l,
                ).contains(j));
                assert(!idxs_at(vns, l).contains(i));
            }
            assert forall|j: int| #[trigger] idxs_at(vns, b as int).contains(j) implies 0 <= j
                < ns2.len() && ns2[j] == vns[j] by {
                assert(idxs_at(vns, l).contains(j));
            }
            lemma_frame(vns, ns2, b as int);
        },
        None => {},
    }
    match n.rgt {
        Some(c) => {
            assert(idxs_at(vns, i).contains(c as int));
            assert(!idxs_at(vns, c as int).contains(i));
            assert(!idxs_at(vns, c as int).contains(l)) by {
                assert(idxs_at(vns, l).disjoint(idxs_at(vns, c as int)));
                assert(idxs_at(vns, l).contains(l));
            }
            assert forall|j: int| #[trigger] idxs_at(vns, c as int).contains(j) implies 0 <= j
                < ns2.len() && ns2[j] == vns[j] by {
                assert(idxs_at(vns, i).contains(j));
            }
            lemma_frame(vns, ns2, c as int);
        },
        None => {},
    }

    // the subtree keys keep their bounds relative to both pivot keys
    assert(keys_at(vns, l).contains(lnode.key));
    assert(lnode.key < n.key);
    assert(keys_at(vns, i) =~= keys_at(vns, l).union(
        match n.rgt {
            Some(c) => keys_at(vns, c as int),
            None => Set::empty(),
        },
    ).insert(n.key));
    assert(keys_at(vns, l) =~= (match lnode.lft {
        Some(a) => keys_at(vns, a as int),
        None => Set::empty(),
    }).union(
        match lnode.rgt {
            Some(b) => keys_at(vns, b as int),
            None => Set::empty(),
        },
    ).insert(lnode.key));

    // well-formedness of the relocated pivot
    assert(wf_at(ns2, i)) by {
        match lnode.rgt {
            Some(b) => {
                assert(keys_at(ns2, b as int) == keys_at(vns, b as int));
                assert forall|k: u64| keys_at(ns2, b as int).contains(k) implies k < n.key by {
                    assert(keys_at(vns, l).contains(k));
                }
                assert forall|k: u64| keys_at(ns2, b as int).contains(k) implies k > lnode.key
                    by {}
            },
            None => {},
        }
        match n.rgt {
            Some(c) => {
                assert(keys_at(ns2, c as int) == keys_at(vns, c as int));
            },
            None => {},
        }
    }
    assert(keys_at(ns2, i) =~= (match lnode.rgt {
        Some(b) => keys_at(vns, b as int),
        None => Set::empty(),
    }).union(
        match n.rgt {
            Some(c) => keys_at(vns, c as int),
            None => Set::empty(),
        },
    ).insert(n.key));
    assert(idxs_at(ns2, i) =~= (match lnode.rgt {
        Some(b) => idxs_at(vns, b as int),
        None => Set::empty(),
    }).union(
        match n.rgt {
            Some(c) => idxs_at(vns, c as int),
            None => Set::empty(),
        },
    ).insert(i));

    // well-formedness of the new subtree root
    assert(wf_at(ns2, l)) by {
        match lnode.lft {
            Some(a) => {
                assert(keys_at(ns2, a as int) == keys_at(vns, a as int));
                assert forall|k: u64| keys_at(ns2, a as int).contains(k) implies k < lnode.key
                    by {}
            },
            None => {},
        }
        assert forall|k: u64| keys_at(ns2, i).contains(k) implies k > lnode.key by {
            if k == n.key {
            } else {
                match lnode.rgt {
                    Some(b) => {
                        if keys_at(vns, b as int).contains(k) {
                            assert(k > lnode.key);
                        }
                    },
                    None => {},
                }
                match n.rgt {
                    Some(c) => {
                        if keys_at(vns, c as int).contains(k) {
                            assert(k > n.key);
                        }
                    },
                    None => {},
                }
            }
        }
    }
    assert(keys_at(ns2, l) =~= keys_at(vns, i));
    assert(idxs_at(ns2, l) =~= idxs_at(vns, i));
    assert forall|j: int| 0 <= j < ns0.len() && !idxs_at(vns, i).contains(j) implies ns2[j]
        == ns0[j] by {}
}

/// Lifting the right child of a well-formed node rebuilds a well-formed
/// subtree over the same keys and the same arena slots, touching no slot
/// outside the subtree: the mirror image of [`lemma_rotate_left_replay`].
pub proof fn lemma_rotate_right_replay(ns0: Seq<Node>, n: Node, ns2: Seq<Node>)
    requires
        0 <= n.id < ns0.len(),
        n.rgt is Some,
        wf_at(ns0.update(n.id as int, n), n.id as int),
        ht_at(ns0.update(n.id as int, n), n.id as int) < u64::MAX - 1,
        ns2 == rotate_right_result(ns0, n),
    ensures
        ({
            let i = n.id as int;
            let vns = ns0.update(i, n);
            let r = n.rgt.unwrap() as int;
            &&& ns2.len() == ns0.len()
            &&& n.rgt.unwrap() != n.id
            &&& 0 <= r < ns0.len()
            &&& wf_at(ns2, r)
            &&& wf_at(ns2, i)
            &&& ns2[r].rgt == vns[r].rgt
            &&& ns2[r].lft == Some(n.id)
            &&& ns2[r].key == vns[r].key
            &&& ns2[i].rgt == vns[r].lft
            &&& ns2[i].lft == n.lft
            &&& keys_at(ns2, r) == keys_at(vns, i)
            &&& idxs_at(ns2, r) == idxs_at(vns, i)
            &&& ht_at(ns2, i) == new_ht(child_ht(vns, n.lft), child_ht(vns, vns[r].lft))
            &&& ht_at(ns2, r) == new_ht(ht_at(ns2, i), child_ht(vns, vns[r].rgt))
            &&& child_ht(ns2, ns2[r].rgt) == child_ht(vns, vns[r].rgt)
            &&& child_ht(ns2, ns2[i].rgt) == child_ht(vns, vns[r].lft)
            &&& child_ht(ns2, ns2[i].lft) == child_ht(vns, n.lft)
            &&& (forall|j: int|
                0 <= j < ns0.len() && !idxs_at(vns, i).contains(j) ==> ns2[j] == ns0[j])
            &&& (match vns[r].rgt {
                Some(a) => bal_at(vns, a as int) ==> bal_at(ns2, a as int),
                None => true,
            })
            &&& (match vns[r].lft {
                Some(b) => bal_at(vns, b as int) ==> bal_at(ns2, b as int),
                None => true,
            })
            &&& (match n.lft {
                Some(c) => bal_at(vns, c as int) ==> bal_at(ns2, c as int),
                None => true,
            })
        }),
{
    let i = n.id as int;
    let vns = ns0.update(i, n);
    let ru = n.rgt.unwrap();
    let r = ru as int;
    assert(vns[i] == n);
    assert(0 <= r < ns0.len() && vns[r as int].ht < n.ht);
    assert(r != i);
    let rnode = ns0[r];
    assert(vns[r] == rnode);
    assert(wf_at(vns, r));
    lemma_subtree_disjoint(vns, i);
    lemma_subtree_disjoint(vns, r);
    lemma_members(vns, i);
    lemma_members(vns, r);
    assert(idxs_at(vns, i).contains(i));
    assert(idxs_at(vns, r).contains(r));
    assert(idxs_at(vns, i).contains(r));
    assert(child_ht(vns, rnode.lft) <= ht_at(vns, r));
    let h1 = new_ht(child_ht(ns0, n.lft), child_ht(ns0, rnode.lft));
    let n1 = Node { id: n.id, key: n.key, lft: n.lft, rgt: rnode.lft, ht: h1 };
    let nsb = ns0.update(i, n1);
    let h2 = new_ht(h1, child_ht(nsb, rnode.rgt));
    let r1 = Node { id: ru, key: rnode.key, lft: Some(n.id), rgt: rnode.rgt, ht: h2 };
    assert(ns2 == nsb.update(r, r1));
    assert(ns2[i] == n1);
    assert(ns2[r] == r1);

    // the three moved subtrees contain neither `i` nor `r`
    match rnode.rgt {
        Some(a) => {
            assert(idxs_at(vns, r).contains(a as int));
            assert(!idxs_at(vns, a as int).contains(r));
            assert(!idxs_at(vns, a as int).contains(i)) by {
                assert(forall|j: int| #[trigger] idxs_at(vns, a as int).contains(j) ==> idxs_at(
                    vns,
                    r,
                ).contains(j));
                assert(!idxs_at(vns, r).contains(i));
            }
            assert forall|j: int| #[trigger] idxs_at(vns, a as int).contains(j) implies 0 <= j
                < ns2.len() && ns2[j] == vns[j] by {
                assert(idxs_at(vns, r).contains(j));
            }
            lemma_frame(vns, ns2, a as int);
        },
        None => {},
    }
    match rnode.lft {
        Some(b) => {
            assert(idxs_at(vns, r).contains(b as int));
            assert(!idxs_at(vns, b as int).contains(r));
            assert(!idxs_at(vns, b as int).contains(i)) by {
                assert(forall|j: int| #[trigger] idxs_at(vns, b as int).contains(j) ==> idxs_at(
                    vns,
                    r,
                ).contains(j));
                assert(!idxs_at(vns, r).contains(i));
            }
            assert forall|j: int| #[trigger] idxs_at(vns, b as int).contains(j) implies 0 <= j
                < ns2.len() && ns2[j] == vns[j] by {
                assert(idxs_at(vns, r).contains(j));
            }
            lemma_frame(vns, ns2, b as int);
        },
        None => {},
    }
    match n.lft {
        Some(c) => {
            assert(idxs_at(vns, i).contains(c as int));
            assert(!idxs_at(vns, c as int).contains(i));
            assert(!idxs_at(vns, c as int).contains(r)) by {
                assert(idxs_at(vns, c as int).disjoint(idxs_at(vns, r)));
                assert(idxs_at(vns, r).contains(r));
            }
            assert forall|j: int| #[trigger] idxs_at(vns, c as int).contains(j) implies 0 <= j
                < ns2.len() && ns2[j] == vns[j] by {
                assert(idxs_at(vns, i).contains(j));
            }
            lemma_frame(vns, ns2, c as int);
        },
        None => {},
    }

    // the subtree keys keep their bounds relative to both pivot keys
    assert(keys_at(vns, r).contains(rnode.key));
    assert(rnode.key > n.key);
    assert(keys_at(vns, i) =~= (match n.lft {
        Some(c) => keys_at(vns, c as int),
        None => Set::empty(),
    }).union(keys_at(vns, r)).insert(n.key));
    assert(keys_at(vns, r) =~= (match rnode.lft {
        Some(b) => keys_at(vns, b as int),
        None => Set::empty(),
    }).union(
        match rnode.rgt {
            Some(a) => keys_at(vns, a as int),
            None => Set::empty(),
        },
    ).insert(rnode.key));

    // well-formedness of the relocated pivot
    assert(wf_at(ns2, i)) by {
        match rnode.lft {
            Some(b) => {
                assert(keys_at(ns2, b as int) == keys_at(vns, b as int));
                assert forall|k: u64| keys_at(ns2, b as int).contains(k) implies k > n.key by {
                    assert(keys_at(vns, r).contains(k));
                }
                assert forall|k: u64| keys_at(ns2, b as int).contains(k) implies k < rnode.key
                    by {}
            },
            None => {},
        }
        match n.lft {
            Some(c) => {
                assert(keys_at(ns2, c as int) == keys_at(vns, c as int));
            },
            None => {},
        }
    }
    assert(keys_at(ns2, i) =~= (match n.lft {
        Some(c) => keys_at(vns, c as int),
        None => Set::empty(),
    }).union(
        match rnode.lft {
            Some(b) => keys_at(vns, b as int),
            None => Set::empty(),
        },
    ).insert(n.key));
    assert(idxs_at(ns2, i) =~= (match n.lft {
        Some(c) => idxs_at(vns, c as int),
        None => Set::empty(),
    }).union(
        match rnode.lft {
            Some(b) => idxs_at(vns, b as int),
            None => Set::empty(),
        },
    ).insert(i));

    // well-formedness of the new subtree root
    assert(wf_at(ns2, r)) by {
        match rnode.rgt {
            Some(a) => {
                assert(keys_at(ns2, a as int) == keys_at(vns, a as int));
                assert forall|k: u64| keys_at(ns2, a as int).contains(k) implies k > rnode.key
                    by {}
            },
            None => {},
        }
        assert forall|k: u64| keys_at(ns2, i).contains(k) implies k < rnode.key by {
            if k == n.key {
            } else {
                match rnode.lft {
                    Some(b) => {
                        if keys_at(vns, b as int).contains(k) {
                            assert(k < rnode.key);
                        }
                    },
                    None => {},
                }
                match n.lft {
                    Some(c) => {
                        if keys_at(vns, c as int).contains(k) {
                            assert(k < n.key);
                        }
                    },
                    None => {},
                }
            }
        }
    }
    assert(keys_at(ns2, r) =~= keys_at(vns, i));
    assert(idxs_at(ns2, r) =~= idxs_at(vns, i));
    assert forall|j: int| 0 <= j < ns0.len() && !idxs_at(vns, i).contains(j) implies ns2[j]
        == ns0[j] by {}
}

} // verus!
