//! An ordered map kept as an AVL tree whose nodes live in a dense arena.
//!
//! The map composes two regions of the byte store: a [`Vector`] holding the
//! serialized tree nodes (the node arena) and a [`LookupMap`] holding the
//! values.  Nodes reference each other by arena index, never by pointer, and
//! the arena is kept dense: a removal relocates the highest-indexed node into
//! the vacated slot.

use vstd::prelude::*;
use vstd::set_lib::set_int_range;

use crate::error::Error;
use crate::keys::agree_outside_region;
use crate::keys::append;
use crate::lookup_map::LookupMap;
use crate::store::Store;
use crate::tree_spec::Node;
use crate::tree_spec::bal_at;
use crate::tree_spec::balance_pre;
use crate::tree_spec::child_ht;
use crate::tree_spec::decode_node;
use crate::tree_spec::encode_node;
use crate::tree_spec::ht_at;
use crate::tree_spec::idxs_at;
use crate::tree_spec::keys_at;
use crate::tree_spec::lemma_frame;
use crate::tree_spec::lemma_ht_le_size;
use crate::tree_spec::lemma_keys_card;
use crate::tree_spec::lemma_members;
use crate::tree_spec::lemma_node_codec;
use crate::tree_spec::lemma_subtree_disjoint;
use crate::tree_spec::lemma_wf_descend;
use crate::tree_spec::lemma_key_injective;
use crate::tree_spec::lemma_links;
use crate::tree_spec::lemma_relabel;
use crate::tree_spec::links_to;
use crate::tree_spec::rename_idx;
use crate::tree_spec::rename_node;
use crate::tree_spec::new_ht;
use crate::tree_spec::rotate_left_result;
use crate::tree_spec::rotate_right_result;
use crate::tree_spec::lemma_rotate_left_replay;
use crate::tree_spec::lemma_rotate_right_replay;
use crate::tree_spec::spec_parse_node;
use crate::tree_spec::wf_at;
use crate::vector::Vector;

verus! {

/// Two maps agree on every key outside both regions.
pub open spec fn agree_outside_two(
    m1: Map<Seq<u8>, Seq<u8>>,
    m2: Map<Seq<u8>, Seq<u8>>,
    p1: Seq<u8>,
    p2: Seq<u8>,
) -> bool {
    &&& forall|k: Seq<u8>| !p1.is_prefix_of(k) && !p2.is_prefix_of(k) ==> #[trigger] m1.contains_key(
        k,
    ) == m2.contains_key(k)
    &&& forall|k: Seq<u8>| !p1.is_prefix_of(k) && !p2.is_prefix_of(k) && #[trigger] m1.contains_key(
        k,
    ) ==> m1[k] == m2[k]
}

/// The tag byte (ASCII `v`) appended to the map's identifier to derive the
/// value region's prefix.
pub const VALUE_TAG: u8 = 118;

/// The tag byte (ASCII `n`) appended to the map's identifier to derive the
/// node region's prefix.
pub const NODE_TAG: u8 = 110;

/// An ordered map from `u64` keys to `u64` values, AVL-balanced.
///
/// Worst-case costs: `get`/`contains_key` are one lookup; `insert`, `remove`
/// and the order queries are logarithmic in the number of entries.
pub struct TreeMap {
    root: u64,
    val: LookupMap,
    tree: Vector,
}

impl TreeMap {
    /// The prefix of the region holding the values.
    pub closed spec fn val_prefix(self) -> Seq<u8> {
        self.val.spec_prefix()
    }

    /// The prefix of the region holding the node arena.
    pub closed spec fn node_prefix(self) -> Seq<u8> {
        self.tree.spec_prefix()
    }

    /// The arena index of the root node (meaningful only when non-empty).
    pub closed spec fn spec_root(self) -> u64 {
        self.root
    }

    /// The number of entries (the arena length).
    pub closed spec fn spec_len(self) -> u64 {
        self.tree.spec_len()
    }

    /// The node arena, decoded.
    pub closed spec fn nodes_of(self, m: Map<Seq<u8>, Seq<u8>>) -> Seq<Node> {
        self.tree.raw_view(m).map_values(|b: Seq<u8>| spec_parse_node(b))
    }

    /// The entries of the map, as read from the value region.
    pub closed spec fn view(self, m: Map<Seq<u8>, Seq<u8>>) -> Map<u64, u64> {
        self.val.view(m)
    }

    /// Region-level well-formedness: the two regions are disjoint, each is
    /// well-formed, and every arena slot decodes to a node that knows its own
    /// index.
    pub closed spec fn wf(self, m: Map<Seq<u8>, Seq<u8>>) -> bool {
        &&& self.val_prefix().len() == self.node_prefix().len()
        &&& self.val_prefix() != self.node_prefix()
        &&& self.tree.wf(m)
        &&& self.val.wf(m)
        &&& forall|i: int| 0 <= i < self.spec_len() ==> (#[trigger] self.tree.raw_view(m)[i]).len()
            == 42 && self.nodes_of(m)[i].id == i as u64
    }

    /// The full invariant: on top of [`TreeMap::wf`], the arena holds one
    /// well-formed, balanced search tree, its indices are exactly
    /// `0 .. len` (density), and its keys are exactly the keys of the value
    /// region.
    pub closed spec fn inv(self, m: Map<Seq<u8>, Seq<u8>>) -> bool {
        &&& self.wf(m)
        &&& self.spec_len() > 0 ==> {
            let ns = self.nodes_of(m);
            let root = self.spec_root() as int;
            &&& self.spec_root() < self.spec_len()
            &&& wf_at(ns, root)
            &&& bal_at(ns, root)
            &&& idxs_at(ns, root) == set_int_range(0, self.spec_len() as int)
            &&& keys_at(ns, root) == self.view(m).dom()
        }
        &&& self.spec_len() == 0 ==> self.view(m).dom() == Set::<u64>::empty()
            && self.spec_root() == 0
    }

    /// Creates an empty map whose regions are derived from `id`: one tag byte
    /// distinguishes the value region from the node region.
    pub fn new(id: Vec<u8>) -> (r: Self)
        ensures
            r.spec_root() == 0,
            r.spec_len() == 0,
            r.val_prefix() == id@.push(VALUE_TAG),
            r.node_prefix() == id@.push(NODE_TAG),
            r.val_prefix().len() == r.node_prefix().len(),
            r.val_prefix() != r.node_prefix(),
    {
        let r = Self {
            root: 0,
            val: LookupMap::new(append(id.as_slice(), VALUE_TAG)),
            tree: Vector::new(append(id.as_slice(), NODE_TAG)),
        };
        proof {
            assert(r.val_prefix()[id@.len() as int] != r.node_prefix()[id@.len() as int]);
        }
        r
    }

    /// On a store whose two regions are empty, a freshly created map
    /// satisfies the full invariant and represents the empty map.
    pub proof fn lemma_empty_inv(self, m: Map<Seq<u8>, Seq<u8>>)
        requires
            self.spec_len() == 0,
            self.spec_root() == 0,
            self.val_prefix().len() == self.node_prefix().len(),
            self.val_prefix() != self.node_prefix(),
            forall|k: Seq<u8>| #[trigger] m.contains_key(k) ==> !self.val_prefix().is_prefix_of(k)
                && !self.node_prefix().is_prefix_of(k),
        ensures
            self.inv(m),
            self.wf(m),
            self.view(m) == Map::<u64, u64>::empty(),
    {
        assert forall|k: u64| !(#[trigger] self.view(m).dom().contains(k)) by {
            if m.contains_key(self.val.key_at(k)) {
                self.val.lemma_key_at_region(k);
            }
        }
        assert(self.view(m).dom() =~= Set::<u64>::empty());
        assert(self.view(m) =~= Map::<u64, u64>::empty());
    }

    /// Arena density: the node region holds exactly the indices
    /// `0 .. len`, with no gaps — every backend key under the node prefix is
    /// the key of a live index, and every live index is present.
    pub proof fn lemma_arena_dense(self, m: Map<Seq<u8>, Seq<u8>>)
        requires
            self.wf(m),
        ensures
            forall|bk: Seq<u8>| #[trigger] m.contains_key(bk) && self.node_prefix().is_prefix_of(
                bk,
            ) ==> exists|i: u64|
                i < self.spec_len() && bk == self.node_prefix()
                    + vstd::bytes::spec_u64_to_le_bytes(i),
            forall|i: u64|
                i < self.spec_len() ==> #[trigger] m.contains_key(
                    self.node_prefix() + vstd::bytes::spec_u64_to_le_bytes(i),
                ),
    {
        assert forall|bk: Seq<u8>|
            #[trigger] m.contains_key(bk) && self.node_prefix().is_prefix_of(bk) implies exists|
            i: u64,
        | i < self.spec_len() && bk == self.node_prefix() + vstd::bytes::spec_u64_to_le_bytes(
            i,
        ) by {
            assert(self.tree.in_region(bk));
            let i = choose|i: u64| i < self.tree.spec_len() && bk == self.tree.key_at(i);
            assert(bk == self.node_prefix() + vstd::bytes::spec_u64_to_le_bytes(i));
        }
        assert forall|i: u64| i < self.spec_len() implies #[trigger] m.contains_key(
            self.node_prefix() + vstd::bytes::spec_u64_to_le_bytes(i),
        ) by {
            assert(m.contains_key(self.tree.key_at(i)));
        }
    }

    /// The arena length counts the entries: a map holding its invariant has
    /// exactly `len` keys.
    pub proof fn lemma_len_is_entry_count(self, m: Map<Seq<u8>, Seq<u8>>)
        requires
            self.inv(m),
        ensures
            self.view(m).dom().finite(),
            self.view(m).dom().len() == self.spec_len(),
    {
        if self.spec_len() == 0 {
            assert(self.view(m).dom() =~= Set::<u64>::empty());
        } else {
            let ns = self.nodes_of(m);
            let root = self.spec_root() as int;
            lemma_keys_card(ns, root);
            vstd::set_lib::lemma_int_range(0, self.spec_len() as int);
            assert(keys_at(ns, root) == self.view(m).dom());
            assert(idxs_at(ns, root).len() == self.spec_len());
        }
    }

    /// Returns the number of entries in the map.
    pub fn len(&self) -> (r: u64)
        ensures
            r == self.spec_len(),
    {
        self.tree.len()
    }

    fn node(&self, st: &Store, id: u64) -> (r: Option<Node>)
        requires
            self.wf(st@),
        ensures
            r == if id < self.spec_len() {
                Some(self.nodes_of(st@)[id as int])
            } else {
                None::<Node>
            },
    {
        match self.tree.get_raw(st, id) {
            Some(raw) => {
                let n = decode_node(raw.as_slice());
                proof {
                    assert(self.tree.raw_view(st@)[id as int].len() == 42);
                }
                n
            },
            None => None,
        }
    }

    fn save(&mut self, st: &mut Store, node: &Node)
        requires
            old(self).wf(old(st)@),
            node.id <= old(self).spec_len(),
            node.id == old(self).spec_len() ==> old(self).spec_len() < u64::MAX,
        ensures
            final(self).wf(final(st)@),
            final(self).spec_root() == old(self).spec_root(),
            final(self).val_prefix() == old(self).val_prefix(),
            final(self).node_prefix() == old(self).node_prefix(),
            agree_outside_region(old(st)@, final(st)@, old(self).node_prefix()),
            final(self).view(final(st)@) == old(self).view(old(st)@),
            node.id < old(self).spec_len() ==> final(self).spec_len() == old(self).spec_len()
                && final(self).nodes_of(final(st)@) == old(self).nodes_of(old(st)@).update(
                node.id as int,
                *node,
            ),
            node.id == old(self).spec_len() ==> final(self).spec_len() == old(self).spec_len() + 1
                && final(self).nodes_of(final(st)@) == old(self).nodes_of(old(st)@).push(*node),
    {
        let ghost m0 = st@;
        let ghost me0 = *self;
        let raw = encode_node(node);
        proof {
            lemma_node_codec(*node);
        }
        if node.id < self.tree.len() {
            let r = self.tree.replace_raw(st, node.id, raw.as_slice());
            proof {
                assert(self.nodes_of(st@) =~= me0.nodes_of(m0).update(node.id as int, *node));
                me0.lemma_val_region_stable(m0, st@);
            }
        } else {
            self.tree.push_raw(st, raw.as_slice());
            proof {
                assert(self.nodes_of(st@) =~= me0.nodes_of(m0).push(*node));
                me0.lemma_val_region_stable(m0, st@);
            }
        }
    }

    /// A change confined to the node region leaves the value region — and so
    /// the map's entries — unchanged.
    proof fn lemma_val_region_stable(self, m1: Map<Seq<u8>, Seq<u8>>, m2: Map<Seq<u8>, Seq<u8>>)
        requires
            self.val_prefix().len() == self.node_prefix().len(),
            self.val_prefix() != self.node_prefix(),
            agree_outside_region(m1, m2, self.node_prefix()),
        ensures
            self.view(m2) == self.view(m1),
            self.val.wf(m1) ==> self.val.wf(m2),
    {
        crate::keys::lemma_agreement_crosses_regions(
            m1,
            m2,
            self.node_prefix(),
            self.val_prefix(),
        );
        assert forall|k: u64| #![auto] self.view(m2).dom().contains(k) == self.view(
            m1,
        ).dom().contains(k) && (self.view(m2).dom().contains(k) ==> self.view(m2)[k] == self.view(
            m1,
        )[k]) by {
            self.val.lemma_key_at_region(k);
        }
        assert(self.view(m2).dom() =~= self.view(m1).dom());
        assert(self.view(m2) =~= self.view(m1));
        if self.val.wf(m1) {
            assert forall|bk: Seq<u8>| #[trigger] m2.contains_key(bk) && self.val.in_region(bk)
                implies bk.len() == self.val_prefix().len() + 8 && m2[bk].len() == 8 by {
                assert(m1.contains_key(bk));
            }
        }
    }

    /// A change confined to the value region leaves the node arena unchanged.
    proof fn lemma_node_region_stable(self, m1: Map<Seq<u8>, Seq<u8>>, m2: Map<Seq<u8>, Seq<u8>>)
        requires
            self.val_prefix().len() == self.node_prefix().len(),
            self.val_prefix() != self.node_prefix(),
            self.tree.wf(m1),
            agree_outside_region(m1, m2, self.val_prefix()),
        ensures
            self.tree.wf(m2),
            self.nodes_of(m2) == self.nodes_of(m1),
            self.tree.raw_view(m2) == self.tree.raw_view(m1),
    {
        crate::keys::lemma_agreement_crosses_regions(
            m1,
            m2,
            self.val_prefix(),
            self.node_prefix(),
        );
        assert forall|i: u64| i < self.spec_len() implies m2.contains_key(
            #[trigger] self.tree.key_at(i),
        ) by {
            self.tree.lemma_key_at_region(i);
            assert(m1.contains_key(self.tree.key_at(i)));
        }
        assert forall|k: Seq<u8>| #[trigger] m2.contains_key(k) && self.tree.in_region(k)
            implies exists|i: u64| i < self.tree.spec_len() && k == self.tree.key_at(i) by {
            assert(m1.contains_key(k));
        }
        assert forall|i: int| 0 <= i < self.spec_len() implies self.tree.raw_view(m2)[i]
            == self.tree.raw_view(m1)[i] by {
            self.tree.lemma_key_at_region(i as u64);
            assert(m1.contains_key(self.tree.key_at(i as u64)));
        }
        assert(self.tree.raw_view(m2) =~= self.tree.raw_view(m1));
        assert(self.nodes_of(m2) =~= self.nodes_of(m1));
    }

    // Recomputes and persists the height of a subtree root:
    // `height = 1 + max(height(left), height(right))`.
    fn update_height(&mut self, st: &mut Store, node: &mut Node)
        requires
            old(self).wf(old(st)@),
            old(node).id < old(self).spec_len(),
        ensures
            final(self).wf(final(st)@),
            final(self).spec_root() == old(self).spec_root(),
            final(self).val_prefix() == old(self).val_prefix(),
            final(self).node_prefix() == old(self).node_prefix(),
            final(self).spec_len() == old(self).spec_len(),
            agree_outside_region(old(st)@, final(st)@, old(self).node_prefix()),
            final(self).view(final(st)@) == old(self).view(old(st)@),
            final(node).id == old(node).id,
            final(node).key == old(node).key,
            final(node).lft == old(node).lft,
            final(node).rgt == old(node).rgt,
            final(node).ht == new_ht(
                child_ht(old(self).nodes_of(old(st)@), old(node).lft),
                child_ht(old(self).nodes_of(old(st)@), old(node).rgt),
            ),
            final(self).nodes_of(final(st)@) == old(self).nodes_of(old(st)@).update(
                old(node).id as int,
                *final(node),
            ),
    {
        let lft = match node.lft {
            Some(id) => match self.node(st, id) {
                Some(n) => n.ht,
                None => 0,
            },
            None => 0,
        };
        let rgt = match node.rgt {
            Some(id) => match self.node(st, id) {
                Some(n) => n.ht,
                None => 0,
            },
            None => 0,
        };
        let m = if lft >= rgt {
            lft
        } else {
            rgt
        };
        // the increment saturates; a real arena can never reach this height
        node.ht = if m < u64::MAX {
            m + 1
        } else {
            u64::MAX
        };
        let n = *node;
        self.save(st, &n);
    }

    // Balance factor of a node: height(left) - height(right).
    fn get_balance(&self, st: &Store, node: &Node) -> (r: i128)
        requires
            self.wf(st@),
        ensures
            r == child_ht(self.nodes_of(st@), node.lft) - child_ht(self.nodes_of(st@), node.rgt),
    {
        let lht = match node.lft {
            Some(id) => match self.node(st, id) {
                Some(n) => n.ht,
                None => 0,
            },
            None => 0,
        };
        let rht = match node.rgt {
            Some(id) => match self.node(st, id) {
                Some(n) => n.ht,
                None => 0,
            },
            None => 0,
        };
        lht as i128 - rht as i128
    }

    // Rotation that lifts the left child over `node`.  The new subtree root's
    // index is returned; the caller re-links it from the parent.
    fn rotate_left(&mut self, st: &mut Store, node: &mut Node) -> (r: u64)
        requires
            old(self).wf(old(st)@),
            old(node).id < old(self).spec_len(),
            old(node).lft is Some,
            old(node).lft.unwrap() < old(self).spec_len(),
            old(node).lft.unwrap() != old(node).id,
        ensures
            final(self).wf(final(st)@),
            final(self).spec_root() == old(self).spec_root(),
            final(self).val_prefix() == old(self).val_prefix(),
            final(self).node_prefix() == old(self).node_prefix(),
            final(self).spec_len() == old(self).spec_len(),
            agree_outside_region(old(st)@, final(st)@, old(self).node_prefix()),
            final(self).view(final(st)@) == old(self).view(old(st)@),
            r == old(node).lft.unwrap(),
            final(self).nodes_of(final(st)@) == rotate_left_result(
                old(self).nodes_of(old(st)@),
                *old(node),
            ),
    {
        let l = match node.lft {
            Some(l) => l,
            None => {
                // unreachable: the caller supplies a node with a left child
                0
            },
        };
        let mut lft = match self.node(st, l) {
            Some(n) => n,
            None => {
                // unreachable: the caller supplies an in-range left child
                Node::of(0, 0)
            },
        };
        let lft_rgt = lft.rgt;

        node.lft = lft_rgt;
        lft.rgt = Some(node.id);

        self.update_height(st, node);
        self.update_height(st, &mut lft);

        lft.id
    }

    // Rotation that lifts the right child over `node`, mirroring
    // `rotate_left`.
    fn rotate_right(&mut self, st: &mut Store, node: &mut Node) -> (r: u64)
        requires
            old(self).wf(old(st)@),
            old(node).id < old(self).spec_len(),
            old(node).rgt is Some,
            old(node).rgt.unwrap() < old(self).spec_len(),
            old(node).rgt.unwrap() != old(node).id,
        ensures
            final(self).wf(final(st)@),
            final(self).spec_root() == old(self).spec_root(),
            final(self).val_prefix() == old(self).val_prefix(),
            final(self).node_prefix() == old(self).node_prefix(),
            final(self).spec_len() == old(self).spec_len(),
            agree_outside_region(old(st)@, final(st)@, old(self).node_prefix()),
            final(self).view(final(st)@) == old(self).view(old(st)@),
            r == old(node).rgt.unwrap(),
            final(self).nodes_of(final(st)@) == rotate_right_result(
                old(self).nodes_of(old(st)@),
                *old(node),
            ),
    {
        let rr = match node.rgt {
            Some(rr) => rr,
            None => {
                // unreachable: the caller supplies a node with a right child
                0
            },
        };
        let mut rgt = match self.node(st, rr) {
            Some(n) => n,
            None => {
                // unreachable: the caller supplies an in-range right child
                Node::of(0, 0)
            },
        };
        let rgt_lft = rgt.lft;

        node.rgt = rgt_lft;
        rgt.lft = Some(node.id);

        self.update_height(st, node);
        self.update_height(st, &mut rgt);

        rgt.id
    }

    // Checks the balance factor at `node` and restores balance with one
    // rotation (or a double rotation) if it is off by two.  Returns the index
    // of the subtree's root afterwards; the caller re-links it.
    #[verifier::rlimit(100)]
    #[verifier::spinoff_prover]
    fn enforce_balance(&mut self, st: &mut Store, node: &mut Node) -> (r: u64)
        requires
            old(self).wf(old(st)@),
            old(node).id < old(self).spec_len(),
        ensures
            final(self).wf(final(st)@),
            final(self).spec_root() == old(self).spec_root(),
            final(self).val_prefix() == old(self).val_prefix(),
            final(self).node_prefix() == old(self).node_prefix(),
            final(self).spec_len() == old(self).spec_len(),
            agree_outside_region(old(st)@, final(st)@, old(self).node_prefix()),
            final(self).view(final(st)@) == old(self).view(old(st)@),
            r < old(self).spec_len(),
            balance_pre(old(self).nodes_of(old(st)@), *old(node)) ==> ({
                let ns0 = old(self).nodes_of(old(st)@);
                let ns1 = final(self).nodes_of(final(st)@);
                let i = old(node).id as int;
                &&& (forall|j: int|
                    0 <= j < old(self).spec_len() && !idxs_at(ns0, i).contains(j) ==> ns1[j]
                        == ns0[j])
                &&& wf_at(ns1, r as int)
                &&& bal_at(ns1, r as int)
                &&& keys_at(ns1, r as int) == keys_at(ns0, i)
                &&& idxs_at(ns1, r as int) == idxs_at(ns0, i)
                &&& ht_at(ns0, i) - 1 <= ht_at(ns1, r as int) <= ht_at(ns0, i)
                &&& (child_ht(ns0, old(node).lft) <= child_ht(ns0, old(node).rgt) + 1 && child_ht(
                    ns0,
                    old(node).rgt,
                ) <= child_ht(ns0, old(node).lft) + 1 ==> ns1 == ns0 && r == old(node).id && ht_at(
                    ns1,
                    r as int,
                ) == ht_at(ns0, i))
            }),
    {
        let ghost ns0 = self.nodes_of(st@);
        let ghost i = node.id as int;
        let ghost n = *node;
        proof {
            if balance_pre(ns0, n) {
                lemma_members(ns0, i);
                assert(idxs_at(ns0, i).contains(i));
            }
        }
        let balance = self.get_balance(st, node);
        if balance > 1 {
            let ghost rh = child_ht(ns0, n.rgt);
            let l = match node.lft {
                Some(l) => l,
                None => {
                    // a positive balance factor implies a left child
                    proof {
                        if balance_pre(ns0, n) {
                            assert(false);
                        }
                    }
                    return node.id;
                },
            };
            if l >= self.tree.len() || l == node.id {
                // never reached on a well-formed subtree
                proof {
                    if balance_pre(ns0, n) {
                        assert(0 <= l < ns0.len() && ns0[l as int].ht < n.ht);
                        assert(false);
                    }
                }
                return node.id;
            }
            let ghost lnode = ns0[l as int];
            proof {
                if balance_pre(ns0, n) {
                    assert(wf_at(ns0, l as int));
                    assert(lnode.ht == ht_at(ns0, l as int));
                    assert(lnode.ht == child_ht(ns0, n.lft));
                    assert(lnode.ht == rh + 2);
                    assert(bal_at(ns0, l as int));
                }
            }
            let mut lft = match self.node(st, l) {
                Some(x) => x,
                None => Node::of(0, 0),
            };
            let ghost ll = child_ht(ns0, lnode.lft);
            let ghost lr = child_ht(ns0, lnode.rgt);
            proof {
                if balance_pre(ns0, n) {
                    assert(lnode.ht == new_ht(ll, lr));
                    assert(ll <= lr + 1 && lr <= ll + 1);
                }
            }
            let bal_l = self.get_balance(st, &lft);
            if bal_l < 0 {
                // left child is right-heavy: double rotation
                let bu = match lft.rgt {
                    Some(x) => x,
                    None => {
                        // a right-heavy child has a right child
                        proof {
                            if balance_pre(ns0, n) {
                                assert(false);
                            }
                        }
                        return node.id;
                    },
                };
                let ghost b = bu as int;
                if bu >= self.tree.len() || bu == l || bu == node.id {
                    // never reached on a well-formed subtree
                    proof {
                        if balance_pre(ns0, n) {
                            assert(wf_at(ns0, l as int));
                            assert(0 <= b < ns0.len() && ns0[b].ht < lnode.ht);
                            assert(wf_at(ns0, b));
                            lemma_members(ns0, b);
                            assert(idxs_at(ns0, l as int).contains(b));
                            lemma_subtree_disjoint(ns0, i);
                            assert(!idxs_at(ns0, l as int).contains(i));
                            assert(false);
                        }
                    }
                    return node.id;
                }
                proof {
                    if balance_pre(ns0, n) {
                        assert(lr == ll + 1);
                        assert(ll == rh && lr == rh + 1);
                        assert(wf_at(ns0, b));
                        lemma_members(ns0, b);
                        assert(ns0.update(l as int, lnode) =~= ns0);
                        assert(idxs_at(ns0, b).contains(b));
                        assert(idxs_at(ns0, l as int).contains(b));
                        assert(idxs_at(ns0, i).contains(b));
                        lemma_subtree_disjoint(ns0, i);
                        assert(!idxs_at(ns0, l as int).contains(i));
                    }
                }
                let ghost b1h = child_ht(ns0, ns0[b].lft);
                let ghost b2h = child_ht(ns0, ns0[b].rgt);
                proof {
                    if balance_pre(ns0, n) {
                        assert(bal_at(ns0, b));
                        assert(ns0[b].ht == new_ht(b1h, b2h));
                        assert(ns0[b].ht == lr);
                    }
                }
                let rotated = self.rotate_right(st, &mut lft);
                let ghost ns_mid = self.nodes_of(st@);
                proof {
                    if balance_pre(ns0, n) {
                        lemma_rotate_right_replay(ns0, lnode, ns_mid);
                        assert(rotated == bu);
                    }
                }
                node.lft = Some(rotated);
                let ghost n2 = *node;
                proof {
                    if balance_pre(ns0, n) {
                    // the pivot's stored height is still exact for its new child
                    let vns_m = ns_mid.update(i, n2);
                    assert(ht_at(ns_mid, b) == rh + 2);
                    assert(ht_at(ns_mid, l as int) == rh + 1);
                    assert(!idxs_at(ns0, l as int).contains(i));
                    assert(ns_mid[i] == ns0[i]);
                    assert(idxs_at(ns_mid, b) == idxs_at(ns0, l as int));
                    assert(!idxs_at(ns_mid, b).contains(i));
                    assert forall|j: int| #[trigger] idxs_at(ns_mid, b).contains(j) implies 0 <= j
                        < vns_m.len() && vns_m[j] == ns_mid[j] by {
                        lemma_members(ns_mid, b);
                    }
                    lemma_frame(ns_mid, vns_m, b);
                    // the right subtree is untouched by the inner rotation
                    match n.rgt {
                        Some(c) => {
                            assert(wf_at(ns0, c as int));
                            lemma_subtree_disjoint(ns0, i);
                            lemma_members(ns0, c as int);
                            assert forall|j: int| #[trigger] idxs_at(ns0, c as int).contains(j)
                                implies 0 <= j < vns_m.len() && vns_m[j] == ns0[j] by {
                                assert(idxs_at(ns0, l as int).disjoint(idxs_at(ns0, c as int)));
                                assert(!idxs_at(ns0, c as int).contains(i));
                                assert(!idxs_at(ns0, l as int).contains(j));
                                assert(idxs_at(ns0, i).contains(j));
                            }
                            lemma_frame(ns0, vns_m, c as int);
                        },
                        None => {},
                    }
                    assert(keys_at(ns_mid, b) == keys_at(ns0, l as int));
                    assert forall|k: u64| keys_at(vns_m, b).contains(k) implies k < n.key by {
                        assert(keys_at(ns0, l as int).contains(k));
                    }
                    assert(n2.ht == new_ht(child_ht(vns_m, n2.lft), child_ht(vns_m, n2.rgt)));
                    assert(wf_at(vns_m, i));
                    }
                }
                let r = self.rotate_left(st, node);
                let ghost ns1 = self.nodes_of(st@);
                proof {
                    if balance_pre(ns0, n) {
                    let vns_m = ns_mid.update(i, n2);
                    lemma_rotate_left_replay(ns_mid, n2, ns1);
                    assert(r == bu);
                    // same keys and indices as the original subtree
                    assert(keys_at(vns_m, i) =~= keys_at(ns0, i)) by {
                        assert(keys_at(vns_m, b) == keys_at(ns0, l as int));
                        match n.rgt {
                            Some(c) => {
                                assert(keys_at(vns_m, c as int) == keys_at(ns0, c as int));
                            },
                            None => {},
                        }
                    }
                    assert(idxs_at(vns_m, i) =~= idxs_at(ns0, i)) by {
                        assert(idxs_at(vns_m, b) == idxs_at(ns0, l as int));
                        match n.rgt {
                            Some(c) => {
                                assert(idxs_at(vns_m, c as int) == idxs_at(ns0, c as int));
                            },
                            None => {},
                        }
                    }
                    assert(keys_at(ns1, r as int) == keys_at(ns0, i));
                    assert(idxs_at(ns1, r as int) == idxs_at(ns0, i));
                    // frame: composition of the two rotations
                    assert forall|j: int|
                        0 <= j < old(self).spec_len() && !idxs_at(ns0, i).contains(j) implies ns1[j]
                        == ns0[j] by {
                        assert(!idxs_at(ns0, l as int).contains(j));
                        assert(ns_mid[j] == ns0[j]);
                        assert(!idxs_at(vns_m, i).contains(j));
                        assert(ns1[j] == ns_mid[j]);
                    }
                    // heights after both rotations
                    assert(ht_at(ns1, i) == new_ht(b2h, rh));
                    assert(ht_at(ns1, r as int) == new_ht((rh + 1) as u64, ht_at(ns1, i)));
                    assert(ht_at(ns1, r as int) == rh + 2);
                    assert(ht_at(ns0, i) == rh + 3);
                    // balance of every node in the rebuilt subtree
                    assert(bal_at(ns1, r as int)) by {
                        assert(wf_at(ns1, i));
                        assert(bal_at(ns1, i)) by {
                            match ns_mid[b].rgt {
                                Some(b2) => {
                                    assert(bal_at(ns0, b2 as int));
                                    assert(bal_at(ns_mid, b2 as int));
                                    assert(wf_at(ns_mid, b2 as int));
                                    lemma_members(ns_mid, b);
                                    assert forall|j: int|
                                        #[trigger] idxs_at(ns_mid, b2 as int).contains(j) implies 0
                                        <= j < vns_m.len() && vns_m[j] == ns_mid[j] by {
                                        assert(idxs_at(ns_mid, b).contains(j));
                                    }
                                    lemma_frame(ns_mid, vns_m, b2 as int);
                                    assert(bal_at(vns_m, b2 as int));
                                    assert(bal_at(ns1, b2 as int));
                                },
                                None => {},
                            }
                            match n.rgt {
                                Some(c) => {
                                    assert(bal_at(ns0, c as int));
                                    assert(bal_at(ns_mid, c as int)) by {
                                        lemma_members(ns0, c as int);
                                        assert forall|j: int|
                                            #[trigger] idxs_at(ns0, c as int).contains(j) implies 0
                                            <= j < ns_mid.len() && ns_mid[j] == ns0[j] by {
                                            assert(idxs_at(ns0, l as int).disjoint(
                                                idxs_at(ns0, c as int),
                                            ));
                                            assert(!idxs_at(ns0, l as int).contains(j));
                                        }
                                        lemma_frame(ns0, ns_mid, c as int);
                                    }
                                    assert(bal_at(ns1, c as int));
                                },
                                None => {},
                            }
                        }
                        assert(bal_at(ns1, l as int)) by {
                            assert(bal_at(ns_mid, l as int)) by {
                                match lnode.lft {
                                    Some(a) => {
                                        assert(bal_at(ns0, a as int));
                                        assert(bal_at(ns_mid, a as int));
                                    },
                                    None => {},
                                }
                                match ns_mid[b].lft {
                                    Some(x) => {},
                                    None => {},
                                }
                                match ns0[b].lft {
                                    Some(b1) => {
                                        assert(bal_at(ns0, b1 as int));
                                        assert(bal_at(ns_mid, b1 as int));
                                    },
                                    None => {},
                                }
                            }
                            assert(wf_at(ns_mid, l as int));
                            lemma_members(ns_mid, l as int);
                            lemma_subtree_disjoint(ns_mid, b);
                            assert forall|j: int| #[trigger] idxs_at(ns_mid, l as int).contains(j)
                                implies 0 <= j < ns1.len() && ns1[j] == ns_mid[j] by {
                                assert(idxs_at(ns_mid, b).contains(j));
                                assert(!idxs_at(ns_mid, l as int).contains(b));
                                assert(!idxs_at(ns_mid, b).contains(i));
                            }
                            lemma_frame(ns_mid, ns1, l as int);
                        }
                        assert(ht_at(ns1, l as int) == rh + 1);
                    }
                    }
                }
                r
            } else {
                // single rotation
                proof {
                    if balance_pre(ns0, n) {
                        assert(ll >= lr);
                        assert(ll == rh + 1);
                        assert(lnode.ht == ll + 1);
                        assert(ns0.update(i, n) =~= ns0);
                    }
                }
                let r = self.rotate_left(st, node);
                let ghost ns1 = self.nodes_of(st@);
                proof {
                    if balance_pre(ns0, n) {
                    assert(ns0.update(i, n) =~= ns0);
                    lemma_rotate_left_replay(ns0, n, ns1);
                    assert(r == l);
                    assert(ht_at(ns1, i) == new_ht(lr, rh));
                    assert(ht_at(ns1, r as int) == new_ht(ll, ht_at(ns1, i)));
                    assert(ht_at(ns0, i) == rh + 3);
                    assert(bal_at(ns1, r as int)) by {
                        assert(bal_at(ns1, i)) by {
                            match lnode.rgt {
                                Some(b) => {
                                    assert(bal_at(ns0, b as int));
                                    assert(bal_at(ns1, b as int));
                                },
                                None => {},
                            }
                            match n.rgt {
                                Some(c) => {
                                    assert(bal_at(ns0, c as int));
                                    assert(bal_at(ns1, c as int));
                                },
                                None => {},
                            }
                        }
                        match lnode.lft {
                            Some(a) => {
                                assert(bal_at(ns0, a as int));
                                assert(bal_at(ns1, a as int));
                            },
                            None => {},
                        }
                        assert(wf_at(ns1, r as int));
                    }
                    }
                }
                r
            }
        } else if balance < -1 {
            let ghost lh = child_ht(ns0, n.lft);
            let rr = match node.rgt {
                Some(rr) => rr,
                None => {
                    // a negative balance factor implies a right child
                    proof {
                        if balance_pre(ns0, n) {
                            assert(false);
                        }
                    }
                    return node.id;
                },
            };
            if rr >= self.tree.len() || rr == node.id {
                // never reached on a well-formed subtree
                proof {
                    if balance_pre(ns0, n) {
                        assert(0 <= rr < ns0.len() && ns0[rr as int].ht < n.ht);
                        assert(false);
                    }
                }
                return node.id;
            }
            let ghost rnode = ns0[rr as int];
            proof {
                if balance_pre(ns0, n) {
                    assert(wf_at(ns0, rr as int));
                    assert(rnode.ht == child_ht(ns0, n.rgt));
                    assert(rnode.ht == lh + 2);
                    assert(bal_at(ns0, rr as int));
                }
            }
            let mut rgt = match self.node(st, rr) {
                Some(x) => x,
                None => Node::of(0, 0),
            };
            let ghost rl = child_ht(ns0, rnode.lft);
            let ghost rrh = child_ht(ns0, rnode.rgt);
            proof {
                if balance_pre(ns0, n) {
                    assert(rnode.ht == new_ht(rl, rrh));
                    assert(rl <= rrh + 1 && rrh <= rl + 1);
                }
            }
            let bal_r = self.get_balance(st, &rgt);
            if bal_r > 0 {
                // right child is left-heavy: double rotation
                let bu = match rgt.lft {
                    Some(x) => x,
                    None => {
                        // a left-heavy child has a left child
                        proof {
                            if balance_pre(ns0, n) {
                                assert(false);
                            }
                        }
                        return node.id;
                    },
                };
                let ghost b = bu as int;
                if bu >= self.tree.len() || bu == rr || bu == node.id {
                    // never reached on a well-formed subtree
                    proof {
                        if balance_pre(ns0, n) {
                            assert(wf_at(ns0, rr as int));
                            assert(0 <= b < ns0.len() && ns0[b].ht < rnode.ht);
                            assert(wf_at(ns0, b));
                            lemma_members(ns0, b);
                            assert(idxs_at(ns0, rr as int).contains(b));
                            lemma_subtree_disjoint(ns0, i);
                            assert(!idxs_at(ns0, rr as int).contains(i));
                            assert(false);
                        }
                    }
                    return node.id;
                }
                proof {
                    if balance_pre(ns0, n) {
                        assert(rl == rrh + 1);
                        assert(rrh == lh && rl == lh + 1);
                        assert(wf_at(ns0, b));
                        lemma_members(ns0, b);
                        assert(ns0.update(rr as int, rnode) =~= ns0);
                        assert(idxs_at(ns0, b).contains(b));
                        assert(idxs_at(ns0, rr as int).contains(b));
                        assert(idxs_at(ns0, i).contains(b));
                        lemma_subtree_disjoint(ns0, i);
                        assert(!idxs_at(ns0, rr as int).contains(i));
                    }
                }
                let ghost b1h = child_ht(ns0, ns0[b].lft);
                let ghost b2h = child_ht(ns0, ns0[b].rgt);
                proof {
                    if balance_pre(ns0, n) {
                        assert(bal_at(ns0, b));
                        assert(ns0[b].ht == new_ht(b1h, b2h));
                        assert(ns0[b].ht == rl);
                    }
                }
                let rotated = self.rotate_left(st, &mut rgt);
                let ghost ns_mid = self.nodes_of(st@);
                proof {
                    if balance_pre(ns0, n) {
                        lemma_rotate_left_replay(ns0, rnode, ns_mid);
                        assert(rotated == bu);
                    }
                }
                node.rgt = Some(rotated);
                let ghost n2 = *node;
                proof {
                    if balance_pre(ns0, n) {
                    let vns_m = ns_mid.update(i, n2);
                    assert(ht_at(ns_mid, b) == lh + 2);
                    assert(ht_at(ns_mid, rr as int) == lh + 1);
                    assert(!idxs_at(ns0, rr as int).contains(i));
                    assert(ns_mid[i] == ns0[i]);
                    assert(idxs_at(ns_mid, b) == idxs_at(ns0, rr as int));
                    assert(!idxs_at(ns_mid, b).contains(i));
                    assert forall|j: int| #[trigger] idxs_at(ns_mid, b).contains(j) implies 0 <= j
                        < vns_m.len() && vns_m[j] == ns_mid[j] by {
                        lemma_members(ns_mid, b);
                    }
                    lemma_frame(ns_mid, vns_m, b);
                    match n.lft {
                        Some(c) => {
                            assert(wf_at(ns0, c as int));
                            lemma_subtree_disjoint(ns0, i);
                            lemma_members(ns0, c as int);
                            assert forall|j: int| #[trigger] idxs_at(ns0, c as int).contains(j)
                                implies 0 <= j < vns_m.len() && vns_m[j] == ns0[j] by {
                                assert(idxs_at(ns0, c as int).disjoint(idxs_at(ns0, rr as int)));
                                assert(!idxs_at(ns0, c as int).contains(i));
                                assert(!idxs_at(ns0, rr as int).contains(j));
                                assert(idxs_at(ns0, i).contains(j));
                            }
                            lemma_frame(ns0, vns_m, c as int);
                        },
                        None => {},
                    }
                    assert(keys_at(ns_mid, b) == keys_at(ns0, rr as int));
                    assert forall|k: u64| keys_at(vns_m, b).contains(k) implies k > n.key by {
                        assert(keys_at(ns0, rr as int).contains(k));
                    }
                    assert(n2.ht == new_ht(child_ht(vns_m, n2.lft), child_ht(vns_m, n2.rgt)));
                    assert(wf_at(vns_m, i));
                    }
                }
                let r = self.rotate_right(st, node);
                let ghost ns1 = self.nodes_of(st@);
                proof {
                    if balance_pre(ns0, n) {
                    let vns_m = ns_mid.update(i, n2);
                    lemma_rotate_right_replay(ns_mid, n2, ns1);
                    assert(r == bu);
                    assert(keys_at(vns_m, i) =~= keys_at(ns0, i)) by {
                        assert(keys_at(vns_m, b) == keys_at(ns0, rr as int));
                        match n.lft {
                            Some(c) => {
                                assert(keys_at(vns_m, c as int) == keys_at(ns0, c as int));
                            },
                            None => {},
                        }
                    }
                    assert(idxs_at(vns_m, i) =~= idxs_at(ns0, i)) by {
                        assert(idxs_at(vns_m, b) == idxs_at(ns0, rr as int));
                        match n.lft {
                            Some(c) => {
                                assert(idxs_at(vns_m, c as int) == idxs_at(ns0, c as int));
                            },
                            None => {},
                        }
                    }
                    assert(keys_at(ns1, r as int) == keys_at(ns0, i));
                    assert(idxs_at(ns1, r as int) == idxs_at(ns0, i));
                    assert forall|j: int|
                        0 <= j < old(self).spec_len() && !idxs_at(ns0, i).contains(j) implies ns1[j]
                        == ns0[j] by {
                        assert(!idxs_at(ns0, rr as int).contains(j));
                        assert(ns_mid[j] == ns0[j]);
                        assert(!idxs_at(vns_m, i).contains(j));
                        assert(ns1[j] == ns_mid[j]);
                    }
                    assert(ht_at(ns1, i) == new_ht(lh, b1h));
                    assert(ht_at(ns1, r as int) == new_ht(ht_at(ns1, i), (lh + 1) as u64));
                    assert(ht_at(ns1, r as int) == lh + 2);
                    assert(ht_at(ns0, i) == lh + 3);
                    assert(bal_at(ns1, r as int)) by {
                        assert(wf_at(ns1, i));
                        assert(bal_at(ns1, i)) by {
                            match ns_mid[b].lft {
                                Some(b1) => {
                                    assert(bal_at(ns0, b1 as int));
                                    assert(bal_at(ns_mid, b1 as int));
                                    assert(wf_at(ns_mid, b1 as int));
                                    lemma_members(ns_mid, b);
                                    assert forall|j: int|
                                        #[trigger] idxs_at(ns_mid, b1 as int).contains(j) implies 0
                                        <= j < vns_m.len() && vns_m[j] == ns_mid[j] by {
                                        assert(idxs_at(ns_mid, b).contains(j));
                                    }
                                    lemma_frame(ns_mid, vns_m, b1 as int);
                                    assert(bal_at(vns_m, b1 as int));
                                    assert(bal_at(ns1, b1 as int));
                                },
                                None => {},
                            }
                            match n.lft {
                                Some(c) => {
                                    assert(bal_at(ns0, c as int));
                                    assert(bal_at(ns_mid, c as int)) by {
                                        lemma_members(ns0, c as int);
                                        assert forall|j: int|
                                            #[trigger] idxs_at(ns0, c as int).contains(j) implies 0
                                            <= j < ns_mid.len() && ns_mid[j] == ns0[j] by {
                                            assert(idxs_at(ns0, c as int).disjoint(
                                                idxs_at(ns0, rr as int),
                                            ));
                                            assert(!idxs_at(ns0, rr as int).contains(j));
                                        }
                                        lemma_frame(ns0, ns_mid, c as int);
                                    }
                                    assert(bal_at(ns1, c as int));
                                },
                                None => {},
                            }
                        }
                        assert(bal_at(ns1, rr as int)) by {
                            assert(bal_at(ns_mid, rr as int)) by {
                                match rnode.rgt {
                                    Some(a) => {
                                        assert(bal_at(ns0, a as int));
                                        assert(bal_at(ns_mid, a as int));
                                    },
                                    None => {},
                                }
                                match ns0[b].rgt {
                                    Some(b2) => {
                                        assert(bal_at(ns0, b2 as int));
                                        assert(bal_at(ns_mid, b2 as int));
                                    },
                                    None => {},
                                }
                            }
                            assert(wf_at(ns_mid, rr as int));
                            lemma_members(ns_mid, rr as int);
                            lemma_subtree_disjoint(ns_mid, b);
                            assert forall|j: int| #[trigger] idxs_at(ns_mid, rr as int).contains(j)
                                implies 0 <= j < ns1.len() && ns1[j] == ns_mid[j] by {
                                assert(idxs_at(ns_mid, b).contains(j));
                                assert(!idxs_at(ns_mid, rr as int).contains(b));
                                assert(!idxs_at(ns_mid, b).contains(i));
                            }
                            lemma_frame(ns_mid, ns1, rr as int);
                        }
                        assert(ht_at(ns1, rr as int) == lh + 1);
                    }
                    }
                }
                r
            } else {
                // single rotation
                proof {
                    if balance_pre(ns0, n) {
                        assert(rrh >= rl);
                        assert(rrh == lh + 1);
                        assert(rnode.ht == rrh + 1);
                        assert(ns0.update(i, n) =~= ns0);
                    }
                }
                let r = self.rotate_right(st, node);
                let ghost ns1 = self.nodes_of(st@);
                proof {
                    if balance_pre(ns0, n) {
                    assert(ns0.update(i, n) =~= ns0);
                    lemma_rotate_right_replay(ns0, n, ns1);
                    assert(r == rr);
                    assert(ht_at(ns1, i) == new_ht(lh, rl));
                    assert(ht_at(ns1, r as int) == new_ht(ht_at(ns1, i), rrh));
                    assert(ht_at(ns0, i) == lh + 3);
                    assert(bal_at(ns1, r as int)) by {
                        assert(bal_at(ns1, i)) by {
                            match rnode.lft {
                                Some(b) => {
                                    assert(bal_at(ns0, b as int));
                                    assert(bal_at(ns1, b as int));
                                },
                                None => {},
                            }
                            match n.lft {
                                Some(c) => {
                                    assert(bal_at(ns0, c as int));
                                    assert(bal_at(ns1, c as int));
                                },
                                None => {},
                            }
                        }
                        match rnode.rgt {
                            Some(a) => {
                                assert(bal_at(ns0, a as int));
                                assert(bal_at(ns1, a as int));
                            },
                            None => {},
                        }
                        assert(wf_at(ns1, r as int));
                    }
                    }
                }
                r
            }
        } else {
            proof {
                if balance_pre(ns0, n) {
                    assert(bal_at(ns0, i));
                }
            }
            node.id
        }
    }

    // Descends from `at` to the missing slot where `key` belongs, creates the
    // new node there with arena index `id` (the current length), and
    // rebalances on the way back up.  Returns the subtree's new root index.
    // A call with `at == id` creates the node itself.
    #[verifier::rlimit(100)]
    #[verifier::spinoff_prover]
    fn insert_at(&mut self, st: &mut Store, at: u64, id: u64, key: u64) -> (new_root: u64)
        requires
            old(self).wf(old(st)@),
            id == old(self).spec_len(),
            old(self).spec_len() < u64::MAX - 1,
            at == id || (at < old(self).spec_len() && wf_at(
                old(self).nodes_of(old(st)@),
                at as int,
            ) && bal_at(old(self).nodes_of(old(st)@), at as int) && !keys_at(
                old(self).nodes_of(old(st)@),
                at as int,
            ).contains(key) && ht_at(old(self).nodes_of(old(st)@), at as int) < u64::MAX - 2),
        ensures
            final(self).wf(final(st)@),
            final(self).spec_root() == old(self).spec_root(),
            final(self).val_prefix() == old(self).val_prefix(),
            final(self).node_prefix() == old(self).node_prefix(),
            final(self).spec_len() == old(self).spec_len() + 1,
            agree_outside_region(old(st)@, final(st)@, old(self).node_prefix()),
            final(self).view(final(st)@) == old(self).view(old(st)@),
            ({
                let ns0 = old(self).nodes_of(old(st)@);
                let ns1 = final(self).nodes_of(final(st)@);
                &&& new_root < final(self).spec_len()
                &&& wf_at(ns1, new_root as int)
                &&& bal_at(ns1, new_root as int)
                &&& (forall|j: int|
                    0 <= j < old(self).spec_len() && !(at < old(self).spec_len() && idxs_at(
                        ns0,
                        at as int,
                    ).contains(j)) ==> ns1[j] == ns0[j])
                &&& (at == id ==> new_root == at && keys_at(ns1, new_root as int)
                    == Set::empty().insert(key) && idxs_at(ns1, new_root as int)
                    == Set::empty().insert(id as int) && ht_at(ns1, new_root as int) == 1)
                &&& (at < old(self).spec_len() ==> keys_at(ns1, new_root as int) == keys_at(
                    ns0,
                    at as int,
                ).insert(key) && idxs_at(ns1, new_root as int) == idxs_at(ns0, at as int).insert(
                    id as int,
                ) && ht_at(ns0, at as int) <= ht_at(ns1, new_root as int) <= ht_at(ns0, at as int)
                    + 1)
            }),
        decreases ht_at(old(self).nodes_of(old(st)@), at as int),
    {
        let ghost ns0 = self.nodes_of(st@);
        let ghost len0 = self.spec_len();
        match self.node(st, at) {
            None => {
                let n = Node::of(id, key);
                self.save(st, &n);
                proof {
                    let ns1 = self.nodes_of(st@);
                    assert(ns1 == ns0.push(n));
                    assert(ns1[id as int] == n);
                    assert(wf_at(ns1, id as int));
                    assert(keys_at(ns1, id as int) =~= Set::empty().insert(key));
                    assert(idxs_at(ns1, id as int) =~= Set::empty().insert(id as int));
                    assert(bal_at(ns1, id as int));
                }
                at
            },
            Some(mut node) => {
                proof {
                    assert(at < len0);
                    assert(!keys_at(ns0, at as int).contains(key));
                    assert(keys_at(ns0, at as int).contains(ns0[at as int].key));
                    lemma_subtree_disjoint(ns0, at as int);
                    lemma_members(ns0, at as int);
                }
                if key == node.key {
                    // unreachable: the caller only descends for absent keys
                    at
                } else {
                    let ghost n0 = ns0[at as int];
                    let ghost rh = child_ht(ns0, n0.rgt);
                    let ghost lh = child_ht(ns0, n0.lft);
                    if key < node.key {
                        let idx = match node.lft {
                            Some(lft) => {
                                proof {
                                    assert(wf_at(ns0, lft as int));
                                    assert(bal_at(ns0, lft as int));
                                    if keys_at(ns0, lft as int).contains(key) {
                                        assert(keys_at(ns0, at as int).contains(key));
                                    }
                                }
                                self.insert_at(st, lft, id, key)
                            },
                            None => self.insert_at(st, id, id, key),
                        };
                        let ghost ns_a = self.nodes_of(st@);
                        proof {
                            match n0.lft {
                                Some(lft) => {
                                    assert(!idxs_at(ns0, lft as int).contains(at as int));
                                    assert(ns_a[at as int] == n0);
                                },
                                None => {
                                    assert(ns_a[at as int] == n0);
                                },
                            }
                            assert(keys_at(ns_a, idx as int) == (match n0.lft {
                                Some(lft) => keys_at(ns0, lft as int),
                                None => Set::<u64>::empty(),
                            }).insert(key));
                            assert forall|k: u64| keys_at(ns_a, idx as int).contains(k) implies k
                                < n0.key by {
                                if k != key {
                                    match n0.lft {
                                        Some(lft) => {
                                            assert(keys_at(ns0, at as int).contains(k));
                                        },
                                        None => {},
                                    }
                                }
                            }
                            // the right subtree is untouched
                            match n0.rgt {
                                Some(rgt) => {
                                    assert(wf_at(ns0, rgt as int));
                                    lemma_members(ns0, rgt as int);
                                    assert forall|j: int|
                                        #[trigger] idxs_at(ns0, rgt as int).contains(j) implies 0
                                        <= j < ns_a.len() && ns_a[j] == ns0[j] by {
                                        match n0.lft {
                                            Some(lft) => {
                                                assert(idxs_at(ns0, lft as int).disjoint(
                                                    idxs_at(ns0, rgt as int),
                                                ));
                                                assert(!idxs_at(ns0, lft as int).contains(j));
                                            },
                                            None => {},
                                        }
                                    }
                                    lemma_frame(ns0, ns_a, rgt as int);
                                },
                                None => {},
                            }
                        }
                        node.lft = Some(idx);
                        self.update_height(st, &mut node);
                        let ghost ns_b = self.nodes_of(st@);
                        let ghost n2 = ns_b[at as int];
                        proof {
                            assert(ns_b == ns_a.update(at as int, n2));
                            let hidx = ht_at(ns_a, idx as int);
                            assert(n2.ht == new_ht(hidx, rh)) by {
                                match n0.rgt {
                                    Some(rgt) => {
                                        assert(ht_at(ns_a, rgt as int) == ht_at(ns0, rgt as int));
                                    },
                                    None => {},
                                }
                            }
                            // the freshly built left subtree survives the height write
                            assert(!idxs_at(ns_a, idx as int).contains(at as int)) by {
                                match n0.lft {
                                    Some(lft) => {},
                                    None => {},
                                }
                            }
                            lemma_members(ns_a, idx as int);
                            assert forall|j: int| #[trigger] idxs_at(ns_a, idx as int).contains(j)
                                implies 0 <= j < ns_b.len() && ns_b[j] == ns_a[j] by {}
                            lemma_frame(ns_a, ns_b, idx as int);
                            // and so does the right subtree
                            match n0.rgt {
                                Some(rgt) => {
                                    lemma_members(ns_a, rgt as int);
                                    assert forall|j: int|
                                        #[trigger] idxs_at(ns_a, rgt as int).contains(j) implies 0
                                        <= j < ns_b.len() && ns_b[j] == ns_a[j] by {
                                        assert(idxs_at(ns0, rgt as int).contains(j));
                                        assert(j != at as int && j != id as int);
                                    }
                                    lemma_frame(ns_a, ns_b, rgt as int);
                                },
                                None => {},
                            }
                            assert(wf_at(ns_b, at as int));
                            assert(bal_at(ns_b, idx as int));
                            match n0.rgt {
                                Some(rgt) => {
                                    assert(bal_at(ns_b, rgt as int));
                                },
                                None => {},
                            }
                            assert(keys_at(ns_b, at as int) =~= keys_at(ns0, at as int).insert(
                                key,
                            ));
                            assert(idxs_at(ns_b, at as int) =~= idxs_at(ns0, at as int).insert(
                                id as int,
                            ));
                        }
                        let r = self.enforce_balance(st, &mut node);
                        proof {
                            let ns1 = self.nodes_of(st@);
                            assert(keys_at(ns1, r as int) == keys_at(ns0, at as int).insert(key));
                            assert(idxs_at(ns1, r as int) == idxs_at(ns0, at as int).insert(
                                id as int,
                            ));
                            assert(ht_at(ns0, at as int) <= ht_at(ns1, r as int) <= ht_at(
                                ns0,
                                at as int,
                            ) + 1);
                            assert forall|j: int|
                                0 <= j < len0 && !idxs_at(ns0, at as int).contains(j) implies ns1[j]
                                == ns0[j] by {
                                match n0.lft {
                                    Some(lft) => {
                                        assert(!idxs_at(ns0, lft as int).contains(j));
                                    },
                                    None => {},
                                }
                                assert(ns_a[j] == ns0[j]);
                                assert(!idxs_at(ns_b, at as int).contains(j));
                                assert(ns_b[j] == ns_a[j]);
                                assert(ns1[j] == ns_b[j]);
                            }
                        }
                        r
                    } else {
                        let idx = match node.rgt {
                            Some(rgt) => {
                                proof {
                                    assert(wf_at(ns0, rgt as int));
                                    assert(bal_at(ns0, rgt as int));
                                    if keys_at(ns0, rgt as int).contains(key) {
                                        assert(keys_at(ns0, at as int).contains(key));
                                    }
                                }
                                self.insert_at(st, rgt, id, key)
                            },
                            None => self.insert_at(st, id, id, key),
                        };
                        let ghost ns_a = self.nodes_of(st@);
                        proof {
                            match n0.rgt {
                                Some(rgt) => {
                                    assert(!idxs_at(ns0, rgt as int).contains(at as int));
                                    assert(ns_a[at as int] == n0);
                                },
                                None => {
                                    assert(ns_a[at as int] == n0);
                                },
                            }
                            assert(keys_at(ns_a, idx as int) == (match n0.rgt {
                                Some(rgt) => keys_at(ns0, rgt as int),
                                None => Set::<u64>::empty(),
                            }).insert(key));
                            assert forall|k: u64| keys_at(ns_a, idx as int).contains(k) implies k
                                > n0.key by {
                                if k != key {
                                    match n0.rgt {
                                        Some(rgt) => {
                                            assert(keys_at(ns0, at as int).contains(k));
                                        },
                                        None => {},
                                    }
                                }
                            }
                            match n0.lft {
                                Some(lft) => {
                                    assert(wf_at(ns0, lft as int));
                                    lemma_members(ns0, lft as int);
                                    assert forall|j: int|
                                        #[trigger] idxs_at(ns0, lft as int).contains(j) implies 0
                                        <= j < ns_a.len() && ns_a[j] == ns0[j] by {
                                        match n0.rgt {
                                            Some(rgt) => {
                                                assert(idxs_at(ns0, lft as int).disjoint(
                                                    idxs_at(ns0, rgt as int),
                                                ));
                                                assert(!idxs_at(ns0, rgt as int).contains(j));
                                            },
                                            None => {},
                                        }
                                    }
                                    lemma_frame(ns0, ns_a, lft as int);
                                },
                                None => {},
                            }
                        }
                        node.rgt = Some(idx);
                        self.update_height(st, &mut node);
                        let ghost ns_b = self.nodes_of(st@);
                        let ghost n2 = ns_b[at as int];
                        proof {
                            assert(ns_b == ns_a.update(at as int, n2));
                            let hidx = ht_at(ns_a, idx as int);
                            assert(n2.ht == new_ht(lh, hidx)) by {
                                match n0.lft {
                                    Some(lft) => {
                                        assert(ht_at(ns_a, lft as int) == ht_at(ns0, lft as int));
                                    },
                                    None => {},
                                }
                            }
                            assert(!idxs_at(ns_a, idx as int).contains(at as int)) by {
                                match n0.rgt {
                                    Some(rgt) => {},
                                    None => {},
                                }
                            }
                            lemma_members(ns_a, idx as int);
                            assert forall|j: int| #[trigger] idxs_at(ns_a, idx as int).contains(j)
                                implies 0 <= j < ns_b.len() && ns_b[j] == ns_a[j] by {}
                            lemma_frame(ns_a, ns_b, idx as int);
                            match n0.lft {
                                Some(lft) => {
                                    lemma_members(ns_a, lft as int);
                                    assert forall|j: int|
                                        #[trigger] idxs_at(ns_a, lft as int).contains(j) implies 0
                                        <= j < ns_b.len() && ns_b[j] == ns_a[j] by {
                                        assert(idxs_at(ns0, lft as int).contains(j));
                                        assert(j != at as int && j != id as int);
                                    }
                                    lemma_frame(ns_a, ns_b, lft as int);
                                },
                                None => {},
                            }
                            assert(wf_at(ns_b, at as int));
                            assert(bal_at(ns_b, idx as int));
                            match n0.lft {
                                Some(lft) => {
                                    assert(bal_at(ns_b, lft as int));
                                },
                                None => {},
                            }
                            assert(keys_at(ns_b, at as int) =~= keys_at(ns0, at as int).insert(
                                key,
                            ));
                            assert(idxs_at(ns_b, at as int) =~= idxs_at(ns0, at as int).insert(
                                id as int,
                            ));
                        }
                        let r = self.enforce_balance(st, &mut node);
                        proof {
                            let ns1 = self.nodes_of(st@);
                            assert(keys_at(ns1, r as int) == keys_at(ns0, at as int).insert(key));
                            assert(idxs_at(ns1, r as int) == idxs_at(ns0, at as int).insert(
                                id as int,
                            ));
                            assert(ht_at(ns0, at as int) <= ht_at(ns1, r as int) <= ht_at(
                                ns0,
                                at as int,
                            ) + 1);
                            assert forall|j: int|
                                0 <= j < len0 && !idxs_at(ns0, at as int).contains(j) implies ns1[j]
                                == ns0[j] by {
                                match n0.rgt {
                                    Some(rgt) => {
                                        assert(!idxs_at(ns0, rgt as int).contains(j));
                                    },
                                    None => {},
                                }
                                assert(ns_a[j] == ns0[j]);
                                assert(!idxs_at(ns_b, at as int).contains(j));
                                assert(ns_b[j] == ns_a[j]);
                                assert(ns1[j] == ns_b[j]);
                            }
                        }
                        r
                    }
                }
            },
        }
    }

    // Removes `key` from the subtree at `at`, rebalancing on the way back up
    // (the single-pass form of removal; the balance-invariant tests cover its
    // equivalence to a rebalancing re-descent).  Returns the subtree's new
    // root — `None` when the subtree became empty — and the arena index of
    // the node that left the tree.  That slot stays allocated but unlinked;
    // the caller compacts the arena afterwards.
    #[verifier::rlimit(60)]
    #[verifier::spinoff_prover]
    fn remove_at(&mut self, st: &mut Store, at: u64, key: u64) -> (res: (Option<u64>, u64))
        requires
            old(self).wf(old(st)@),
            at < old(self).spec_len(),
            wf_at(old(self).nodes_of(old(st)@), at as int),
            bal_at(old(self).nodes_of(old(st)@), at as int),
            keys_at(old(self).nodes_of(old(st)@), at as int).contains(key),
            ht_at(old(self).nodes_of(old(st)@), at as int) < u64::MAX - 1,
        ensures
            final(self).wf(final(st)@),
            final(self).spec_root() == old(self).spec_root(),
            final(self).val_prefix() == old(self).val_prefix(),
            final(self).node_prefix() == old(self).node_prefix(),
            final(self).spec_len() == old(self).spec_len(),
            agree_outside_region(old(st)@, final(st)@, old(self).node_prefix()),
            final(self).view(final(st)@) == old(self).view(old(st)@),
            ({
                let ns0 = old(self).nodes_of(old(st)@);
                let ns1 = final(self).nodes_of(final(st)@);
                let d = res.1 as int;
                &&& res.1 < old(self).spec_len()
                &&& idxs_at(ns0, at as int).contains(d)
                &&& (forall|j: int|
                    0 <= j < old(self).spec_len() && !idxs_at(ns0, at as int).contains(j) ==> ns1[j]
                        == ns0[j])
                &&& match res.0 {
                    Some(r) => {
                        &&& r < old(self).spec_len()
                        &&& wf_at(ns1, r as int)
                        &&& bal_at(ns1, r as int)
                        &&& keys_at(ns1, r as int) == keys_at(ns0, at as int).remove(key)
                        &&& idxs_at(ns1, r as int) == idxs_at(ns0, at as int).remove(d)
                        &&& ht_at(ns0, at as int) - 1 <= ht_at(ns1, r as int) <= ht_at(
                            ns0,
                            at as int,
                        )
                    },
                    None => {
                        &&& res.1 == at
                        &&& idxs_at(ns0, at as int) == Set::<int>::empty().insert(at as int)
                        &&& keys_at(ns0, at as int) == Set::<u64>::empty().insert(key)
                        &&& ns1 == ns0
                    },
                }
            }),
        decreases ht_at(old(self).nodes_of(old(st)@), at as int), 1int,
    {
        let ghost ns0 = self.nodes_of(st@);
        let node = match self.node(st, at) {
            Some(n) => n,
            None => Node::of(0, 0),
        };
        let ghost n0 = ns0[at as int];
        proof {
            lemma_members(ns0, at as int);
            assert(keys_at(ns0, at as int).contains(n0.key));
        }
        if key < node.key {
            self.remove_left(st, at, key)
        } else if key > node.key {
            self.remove_right(st, at, key)
        } else {
            match (node.lft, node.rgt) {
                (None, None) => {
                    // a leaf: the parent unlinks it
                    proof {
                        assert(idxs_at(ns0, at as int) =~= Set::<int>::empty().insert(at as int));
                        assert(keys_at(ns0, at as int) =~= Set::<u64>::empty().insert(key));
                    }
                    (None, at)
                },
                (Some(l), None) => {
                    // splice the single left child into this node's place
                    proof {
                        lemma_subtree_disjoint(ns0, at as int);
                        assert(wf_at(ns0, l as int) && bal_at(ns0, l as int));
                        assert(ns0[l as int].ht == 1);
                        assert(keys_at(ns0, at as int).remove(key) =~= keys_at(ns0, l as int));
                        assert(idxs_at(ns0, at as int).remove(at as int) =~= idxs_at(
                            ns0,
                            l as int,
                        )) by {
                            lemma_members(ns0, l as int);
                        }
                        assert(ht_at(ns0, at as int) == 2);
                    }
                    (Some(l), at)
                },
                (None, Some(rr)) => {
                    // splice the single right child into this node's place
                    proof {
                        lemma_subtree_disjoint(ns0, at as int);
                        assert(wf_at(ns0, rr as int) && bal_at(ns0, rr as int));
                        assert(ns0[rr as int].ht == 1);
                        assert(keys_at(ns0, at as int).remove(key) =~= keys_at(ns0, rr as int));
                        assert(idxs_at(ns0, at as int).remove(at as int) =~= idxs_at(
                            ns0,
                            rr as int,
                        )) by {
                            lemma_members(ns0, rr as int);
                        }
                        assert(ht_at(ns0, at as int) == 2);
                    }
                    (Some(rr), at)
                },
                (Some(l), Some(rr)) => {
                    // replace this node's key by a structural neighbour's and
                    // remove that neighbour instead: the in-order predecessor
                    // from the taller (or balanced) left side, else the
                    // in-order successor from the right
                    let b = self.get_balance(st, &node);
                    if b >= 0 {
                        self.remove_via_pred(st, at, key)
                    } else {
                        self.remove_via_succ(st, at, key)
                    }
                },
            }
        }
    }

    // The removal step when the key lies in the left subtree: recurse,
    // relink, recompute the height and rebalance.
    #[verifier::rlimit(100)]
    #[verifier::spinoff_prover]
    fn remove_left(&mut self, st: &mut Store, at: u64, key: u64) -> (res: (Option<u64>, u64))
        requires
            old(self).wf(old(st)@),
            at < old(self).spec_len(),
            wf_at(old(self).nodes_of(old(st)@), at as int),
            bal_at(old(self).nodes_of(old(st)@), at as int),
            keys_at(old(self).nodes_of(old(st)@), at as int).contains(key),
            ht_at(old(self).nodes_of(old(st)@), at as int) < u64::MAX - 1,
            key < old(self).nodes_of(old(st)@)[at as int].key,
        ensures
            final(self).wf(final(st)@),
            final(self).spec_root() == old(self).spec_root(),
            final(self).val_prefix() == old(self).val_prefix(),
            final(self).node_prefix() == old(self).node_prefix(),
            final(self).spec_len() == old(self).spec_len(),
            agree_outside_region(old(st)@, final(st)@, old(self).node_prefix()),
            final(self).view(final(st)@) == old(self).view(old(st)@),
            ({
                let ns0 = old(self).nodes_of(old(st)@);
                let ns1 = final(self).nodes_of(final(st)@);
                let d = res.1 as int;
                &&& res.1 < old(self).spec_len()
                &&& idxs_at(ns0, at as int).contains(d)
                &&& (forall|j: int|
                    0 <= j < old(self).spec_len() && !idxs_at(ns0, at as int).contains(j) ==> ns1[j]
                        == ns0[j])
                &&& match res.0 {
                    Some(r) => {
                        &&& r < old(self).spec_len()
                        &&& wf_at(ns1, r as int)
                        &&& bal_at(ns1, r as int)
                        &&& keys_at(ns1, r as int) == keys_at(ns0, at as int).remove(key)
                        &&& idxs_at(ns1, r as int) == idxs_at(ns0, at as int).remove(d)
                        &&& ht_at(ns0, at as int) - 1 <= ht_at(ns1, r as int) <= ht_at(
                            ns0,
                            at as int,
                        )
                    },
                    None => {
                        &&& res.1 == at
                        &&& idxs_at(ns0, at as int) == Set::<int>::empty().insert(at as int)
                        &&& keys_at(ns0, at as int) == Set::<u64>::empty().insert(key)
                        &&& ns1 == ns0
                    },
                }
            }),
        decreases ht_at(old(self).nodes_of(old(st)@), at as int), 0int,
    {
        let ghost ns0 = self.nodes_of(st@);
        let ghost len0 = self.spec_len();
        let mut node = match self.node(st, at) {
            Some(n) => n,
            None => Node::of(0, 0),
        };
        let ghost n0 = ns0[at as int];
        proof {
            lemma_members(ns0, at as int);
            lemma_subtree_disjoint(ns0, at as int);
            assert(keys_at(ns0, at as int).contains(n0.key));
        }
        // the key lives in the left subtree
        let lft = match node.lft {
            Some(l) => l,
            None => {
                // unreachable: a key below this node's key sits on the left
                proof {
                    match n0.rgt {
                        Some(rgt) => {
                            if keys_at(ns0, rgt as int).contains(key) {
                                assert(key > n0.key);
                            }
                        },
                        None => {},
                    }
                    assert(false);
                }
                return (Some(at), at);
            },
        };
        proof {
            assert(wf_at(ns0, lft as int) && bal_at(ns0, lft as int));
            assert(keys_at(ns0, lft as int).contains(key)) by {
                match n0.rgt {
                    Some(rgt) => {
                        if keys_at(ns0, rgt as int).contains(key) {
                            assert(key > n0.key);
                        }
                    },
                    None => {},
                }
            }
        }
        let (sub, removed) = self.remove_at(st, lft, key);
        let ghost ns_a = self.nodes_of(st@);
        let ghost d = removed as int;
        proof {
            assert(!idxs_at(ns0, lft as int).contains(at as int));
            assert(ns_a[at as int] == n0);
            match n0.rgt {
                Some(rgt) => {
                    assert(wf_at(ns0, rgt as int));
                    lemma_members(ns0, rgt as int);
                    assert forall|j: int| #[trigger] idxs_at(ns0, rgt as int).contains(j)
                        implies 0 <= j < ns_a.len() && ns_a[j] == ns0[j] by {
                        assert(idxs_at(ns0, lft as int).disjoint(idxs_at(ns0, rgt as int)));
                        assert(!idxs_at(ns0, lft as int).contains(j));
                    }
                    lemma_frame(ns0, ns_a, rgt as int);
                },
                None => {},
            }
            match sub {
                Some(r0) => {},
                None => {
                    assert(idxs_at(ns0, lft as int) == Set::<int>::empty().insert(
                        lft as int,
                    ));
                    assert(ns0[lft as int].lft is None) by {
                        match ns0[lft as int].lft {
                            Some(x) => {
                                lemma_members(ns0, x as int);
                                assert(idxs_at(ns0, lft as int).contains(x as int));
                                assert(ns0[x as int].ht < ns0[lft as int].ht);
                                assert(idxs_at(ns0, x as int).contains(x as int));
                            },
                            None => {},
                        }
                    }
                    assert(ns0[lft as int].rgt is None) by {
                        match ns0[lft as int].rgt {
                            Some(x) => {
                                lemma_members(ns0, x as int);
                                assert(idxs_at(ns0, lft as int).contains(x as int));
                                assert(ns0[x as int].ht < ns0[lft as int].ht);
                                assert(idxs_at(ns0, x as int).contains(x as int));
                            },
                            None => {},
                        }
                    }
                    assert(ht_at(ns0, lft as int) == 1);
                },
            }
        }
        node.lft = sub;
        self.update_height(st, &mut node);
        let ghost ns_b = self.nodes_of(st@);
        let ghost n2 = ns_b[at as int];
        proof {
            assert(ns_b == ns_a.update(at as int, n2));
            match sub {
                Some(r0) => {
                    assert(!idxs_at(ns_a, r0 as int).contains(at as int)) by {
                        assert(idxs_at(ns_a, r0 as int) == idxs_at(ns0, lft as int).remove(
                            d,
                        ));
                    }
                    lemma_members(ns_a, r0 as int);
                    assert forall|j: int| #[trigger] idxs_at(ns_a, r0 as int).contains(j)
                        implies 0 <= j < ns_b.len() && ns_b[j] == ns_a[j] by {}
                    lemma_frame(ns_a, ns_b, r0 as int);
                },
                None => {},
            }
            match n0.rgt {
                Some(rgt) => {
                    lemma_members(ns_a, rgt as int);
                    assert forall|j: int| #[trigger] idxs_at(ns_a, rgt as int).contains(j)
                        implies 0 <= j < ns_b.len() && ns_b[j] == ns_a[j] by {
                        assert(idxs_at(ns0, rgt as int).contains(j));
                        assert(j != at as int);
                    }
                    lemma_frame(ns_a, ns_b, rgt as int);
                },
                None => {},
            }
            assert forall|k: u64| keys_at(ns_b, at as int).contains(k) || keys_at(
                ns0,
                at as int,
            ).remove(key).contains(k) implies true by {}
            assert(wf_at(ns_b, at as int)) by {
                match sub {
                    Some(r0) => {
                        assert forall|k: u64| keys_at(ns_b, r0 as int).contains(k) implies k
                            < n0.key by {
                            assert(keys_at(ns0, lft as int).contains(k));
                        }
                    },
                    None => {},
                }
            }
            assert(bal_at(ns_b, at as int) || !bal_at(ns_b, at as int));
            assert(keys_at(ns_b, at as int) =~= keys_at(ns0, at as int).remove(key)) by {
                assert(!keys_at(ns0, at as int).remove(key).contains(key));
                match n0.rgt {
                    Some(rgt) => {
                        if keys_at(ns0, rgt as int).contains(key) {
                            assert(key > n0.key);
                        }
                    },
                    None => {},
                }
            }
            assert(idxs_at(ns_b, at as int) =~= idxs_at(ns0, at as int).remove(d)) by {
                assert(idxs_at(ns0, lft as int).contains(d));
                assert(d != at as int);
                match n0.rgt {
                    Some(rgt) => {
                        assert(!idxs_at(ns0, rgt as int).contains(d));
                    },
                    None => {},
                }
            }
            assert(balance_pre(ns_b, n2)) by {
                assert(ns_b[at as int] == n2);
                let hl0 = child_ht(ns0, n0.lft);
                let hr0 = child_ht(ns0, n0.rgt);
                assert(hl0 <= hr0 + 1 && hr0 <= hl0 + 1);
                assert(child_ht(ns_b, n2.rgt) == hr0);
                assert(hl0 - 1 <= child_ht(ns_b, n2.lft) <= hl0);
                assert(ht_at(ns_b, at as int) < u64::MAX - 1);
            }
        }
        let r = self.enforce_balance(st, &mut node);
        proof {
            let ns1 = self.nodes_of(st@);
            assert(keys_at(ns1, r as int) == keys_at(ns0, at as int).remove(key));
            assert(idxs_at(ns1, r as int) == idxs_at(ns0, at as int).remove(d));
            assert(ht_at(ns0, at as int) - 1 <= ht_at(ns1, r as int) <= ht_at(
                ns0,
                at as int,
            )) by {
                let hl0 = child_ht(ns0, n0.lft);
                let hr0 = child_ht(ns0, n0.rgt);
                let f = child_ht(ns_b, n2.lft);
                assert(ht_at(ns0, at as int) == new_ht(hl0, hr0));
                assert(ht_at(ns_b, at as int) == new_ht(f, hr0));
                if f + 1 <= hr0 + 1 && hr0 <= f + 1 {
                    assert(ht_at(ns1, r as int) == ht_at(ns_b, at as int));
                }
            }
            assert forall|j: int|
                0 <= j < len0 && !idxs_at(ns0, at as int).contains(j) implies ns1[j]
                == ns0[j] by {
                assert(!idxs_at(ns0, lft as int).contains(j));
                assert(ns_a[j] == ns0[j]);
                assert(j != at as int);
                assert(ns_b[j] == ns_a[j]);
                assert(!idxs_at(ns_b, at as int).contains(j));
                assert(ns1[j] == ns_b[j]);
            }
        }
        (Some(r), removed)

    }

    // The removal step when the key lies in the right subtree, mirroring
    // `remove_left`.
    #[verifier::rlimit(100)]
    #[verifier::spinoff_prover]
    fn remove_right(&mut self, st: &mut Store, at: u64, key: u64) -> (res: (Option<u64>, u64))
        requires
            old(self).wf(old(st)@),
            at < old(self).spec_len(),
            wf_at(old(self).nodes_of(old(st)@), at as int),
            bal_at(old(self).nodes_of(old(st)@), at as int),
            keys_at(old(self).nodes_of(old(st)@), at as int).contains(key),
            ht_at(old(self).nodes_of(old(st)@), at as int) < u64::MAX - 1,
            key > old(self).nodes_of(old(st)@)[at as int].key,
        ensures
            final(self).wf(final(st)@),
            final(self).spec_root() == old(self).spec_root(),
            final(self).val_prefix() == old(self).val_prefix(),
            final(self).node_prefix() == old(self).node_prefix(),
            final(self).spec_len() == old(self).spec_len(),
            agree_outside_region(old(st)@, final(st)@, old(self).node_prefix()),
            final(self).view(final(st)@) == old(self).view(old(st)@),
            ({
                let ns0 = old(self).nodes_of(old(st)@);
                let ns1 = final(self).nodes_of(final(st)@);
                let d = res.1 as int;
                &&& res.1 < old(self).spec_len()
                &&& idxs_at(ns0, at as int).contains(d)
                &&& (forall|j: int|
                    0 <= j < old(self).spec_len() && !idxs_at(ns0, at as int).contains(j) ==> ns1[j]
                        == ns0[j])
                &&& match res.0 {
                    Some(r) => {
                        &&& r < old(self).spec_len()
                        &&& wf_at(ns1, r as int)
                        &&& bal_at(ns1, r as int)
                        &&& keys_at(ns1, r as int) == keys_at(ns0, at as int).remove(key)
                        &&& idxs_at(ns1, r as int) == idxs_at(ns0, at as int).remove(d)
                        &&& ht_at(ns0, at as int) - 1 <= ht_at(ns1, r as int) <= ht_at(
                            ns0,
                            at as int,
                        )
                    },
                    None => {
                        &&& res.1 == at
                        &&& idxs_at(ns0, at as int) == Set::<int>::empty().insert(at as int)
                        &&& keys_at(ns0, at as int) == Set::<u64>::empty().insert(key)
                        &&& ns1 == ns0
                    },
                }
            }),
        decreases ht_at(old(self).nodes_of(old(st)@), at as int), 0int,
    {
        let ghost ns0 = self.nodes_of(st@);
        let ghost len0 = self.spec_len();
        let mut node = match self.node(st, at) {
            Some(n) => n,
            None => Node::of(0, 0),
        };
        let ghost n0 = ns0[at as int];
        proof {
            lemma_members(ns0, at as int);
            lemma_subtree_disjoint(ns0, at as int);
            assert(keys_at(ns0, at as int).contains(n0.key));
        }
        // the key lives in the right subtree
        let rgt = match node.rgt {
            Some(rr) => rr,
            None => {
                // unreachable: a key above this node's key sits on the right
                proof {
                    match n0.lft {
                        Some(l) => {
                            if keys_at(ns0, l as int).contains(key) {
                                assert(key < n0.key);
                            }
                        },
                        None => {},
                    }
                    assert(false);
                }
                return (Some(at), at);
            },
        };
        proof {
            assert(wf_at(ns0, rgt as int) && bal_at(ns0, rgt as int));
            assert(keys_at(ns0, rgt as int).contains(key)) by {
                match n0.lft {
                    Some(l) => {
                        if keys_at(ns0, l as int).contains(key) {
                            assert(key < n0.key);
                        }
                    },
                    None => {},
                }
            }
        }
        let (sub, removed) = self.remove_at(st, rgt, key);
        let ghost ns_a = self.nodes_of(st@);
        let ghost d = removed as int;
        proof {
            assert(!idxs_at(ns0, rgt as int).contains(at as int));
            assert(ns_a[at as int] == n0);
            match n0.lft {
                Some(l) => {
                    assert(wf_at(ns0, l as int));
                    lemma_members(ns0, l as int);
                    assert forall|j: int| #[trigger] idxs_at(ns0, l as int).contains(j)
                        implies 0 <= j < ns_a.len() && ns_a[j] == ns0[j] by {
                        assert(idxs_at(ns0, l as int).disjoint(idxs_at(ns0, rgt as int)));
                        assert(!idxs_at(ns0, rgt as int).contains(j));
                    }
                    lemma_frame(ns0, ns_a, l as int);
                },
                None => {},
            }
            match sub {
                Some(r0) => {},
                None => {
                    assert(idxs_at(ns0, rgt as int) == Set::<int>::empty().insert(
                        rgt as int,
                    ));
                    assert(ns0[rgt as int].lft is None) by {
                        match ns0[rgt as int].lft {
                            Some(x) => {
                                lemma_members(ns0, x as int);
                                assert(idxs_at(ns0, rgt as int).contains(x as int));
                                assert(ns0[x as int].ht < ns0[rgt as int].ht);
                                assert(idxs_at(ns0, x as int).contains(x as int));
                            },
                            None => {},
                        }
                    }
                    assert(ns0[rgt as int].rgt is None) by {
                        match ns0[rgt as int].rgt {
                            Some(x) => {
                                lemma_members(ns0, x as int);
                                assert(idxs_at(ns0, rgt as int).contains(x as int));
                                assert(ns0[x as int].ht < ns0[rgt as int].ht);
                                assert(idxs_at(ns0, x as int).contains(x as int));
                            },
                            None => {},
                        }
                    }
                    assert(ht_at(ns0, rgt as int) == 1);
                },
            }
        }
        node.rgt = sub;
        self.update_height(st, &mut node);
        let ghost ns_b = self.nodes_of(st@);
        let ghost n2 = ns_b[at as int];
        proof {
            assert(ns_b == ns_a.update(at as int, n2));
            match sub {
                Some(r0) => {
                    assert(!idxs_at(ns_a, r0 as int).contains(at as int)) by {
                        assert(idxs_at(ns_a, r0 as int) == idxs_at(ns0, rgt as int).remove(
                            d,
                        ));
                    }
                    lemma_members(ns_a, r0 as int);
                    assert forall|j: int| #[trigger] idxs_at(ns_a, r0 as int).contains(j)
                        implies 0 <= j < ns_b.len() && ns_b[j] == ns_a[j] by {}
                    lemma_frame(ns_a, ns_b, r0 as int);
                },
                None => {},
            }
            match n0.lft {
                Some(l) => {
                    lemma_members(ns_a, l as int);
                    assert forall|j: int| #[trigger] idxs_at(ns_a, l as int).contains(j)
                        implies 0 <= j < ns_b.len() && ns_b[j] == ns_a[j] by {
                        assert(idxs_at(ns0, l as int).contains(j));
                        assert(j != at as int);
                    }
                    lemma_frame(ns_a, ns_b, l as int);
                },
                None => {},
            }
            assert(wf_at(ns_b, at as int)) by {
                match sub {
                    Some(r0) => {
                        assert forall|k: u64| keys_at(ns_b, r0 as int).contains(k) implies k
                            > n0.key by {
                            assert(keys_at(ns0, rgt as int).contains(k));
                        }
                    },
                    None => {},
                }
            }
            assert(keys_at(ns_b, at as int) =~= keys_at(ns0, at as int).remove(key)) by {
                assert(!keys_at(ns0, at as int).remove(key).contains(key));
                match n0.lft {
                    Some(l) => {
                        if keys_at(ns0, l as int).contains(key) {
                            assert(key < n0.key);
                        }
                    },
                    None => {},
                }
            }
            assert(idxs_at(ns_b, at as int) =~= idxs_at(ns0, at as int).remove(d)) by {
                assert(idxs_at(ns0, rgt as int).contains(d));
                assert(d != at as int);
                match n0.lft {
                    Some(l) => {
                        assert(!idxs_at(ns0, l as int).contains(d));
                    },
                    None => {},
                }
            }
            assert(balance_pre(ns_b, n2)) by {
                assert(ns_b[at as int] == n2);
                let hl0 = child_ht(ns0, n0.lft);
                let hr0 = child_ht(ns0, n0.rgt);
                assert(hl0 <= hr0 + 1 && hr0 <= hl0 + 1);
                assert(child_ht(ns_b, n2.lft) == hl0);
                assert(hr0 - 1 <= child_ht(ns_b, n2.rgt) <= hr0);
                assert(ht_at(ns_b, at as int) < u64::MAX - 1);
            }
        }
        let r = self.enforce_balance(st, &mut node);
        proof {
            let ns1 = self.nodes_of(st@);
            assert(keys_at(ns1, r as int) == keys_at(ns0, at as int).remove(key));
            assert(idxs_at(ns1, r as int) == idxs_at(ns0, at as int).remove(d));
            assert(ht_at(ns0, at as int) - 1 <= ht_at(ns1, r as int) <= ht_at(
                ns0,
                at as int,
            )) by {
                let hl0 = child_ht(ns0, n0.lft);
                let hr0 = child_ht(ns0, n0.rgt);
                let f = child_ht(ns_b, n2.rgt);
                assert(ht_at(ns0, at as int) == new_ht(hl0, hr0));
                assert(ht_at(ns_b, at as int) == new_ht(hl0, f));
                if hl0 <= f + 1 && f <= hl0 + 1 {
                    assert(ht_at(ns1, r as int) == ht_at(ns_b, at as int));
                }
            }
            assert forall|j: int|
                0 <= j < len0 && !idxs_at(ns0, at as int).contains(j) implies ns1[j]
                == ns0[j] by {
                assert(!idxs_at(ns0, rgt as int).contains(j));
                assert(ns_a[j] == ns0[j]);
                assert(j != at as int);
                assert(ns_b[j] == ns_a[j]);
                assert(!idxs_at(ns_b, at as int).contains(j));
                assert(ns1[j] == ns_b[j]);
            }
        }
        (Some(r), removed)

    }

    // Removes the node at `at` itself when it has two children: its key is
    // replaced by the in-order predecessor's, and that neighbour's node is
    // removed from the left subtree instead.
    #[verifier::rlimit(100)]
    #[verifier::spinoff_prover]
    fn remove_via_pred(&mut self, st: &mut Store, at: u64, key: u64) -> (res: (Option<u64>, u64))
        requires
            old(self).wf(old(st)@),
            at < old(self).spec_len(),
            wf_at(old(self).nodes_of(old(st)@), at as int),
            bal_at(old(self).nodes_of(old(st)@), at as int),
            keys_at(old(self).nodes_of(old(st)@), at as int).contains(key),
            ht_at(old(self).nodes_of(old(st)@), at as int) < u64::MAX - 1,
            key == old(self).nodes_of(old(st)@)[at as int].key,
            old(self).nodes_of(old(st)@)[at as int].lft is Some,
            old(self).nodes_of(old(st)@)[at as int].rgt is Some,
        ensures
            final(self).wf(final(st)@),
            final(self).spec_root() == old(self).spec_root(),
            final(self).val_prefix() == old(self).val_prefix(),
            final(self).node_prefix() == old(self).node_prefix(),
            final(self).spec_len() == old(self).spec_len(),
            agree_outside_region(old(st)@, final(st)@, old(self).node_prefix()),
            final(self).view(final(st)@) == old(self).view(old(st)@),
            ({
                let ns0 = old(self).nodes_of(old(st)@);
                let ns1 = final(self).nodes_of(final(st)@);
                let d = res.1 as int;
                &&& res.1 < old(self).spec_len()
                &&& idxs_at(ns0, at as int).contains(d)
                &&& (forall|j: int|
                    0 <= j < old(self).spec_len() && !idxs_at(ns0, at as int).contains(j) ==> ns1[j]
                        == ns0[j])
                &&& match res.0 {
                    Some(r) => {
                        &&& r < old(self).spec_len()
                        &&& wf_at(ns1, r as int)
                        &&& bal_at(ns1, r as int)
                        &&& keys_at(ns1, r as int) == keys_at(ns0, at as int).remove(key)
                        &&& idxs_at(ns1, r as int) == idxs_at(ns0, at as int).remove(d)
                        &&& ht_at(ns0, at as int) - 1 <= ht_at(ns1, r as int) <= ht_at(
                            ns0,
                            at as int,
                        )
                    },
                    None => {
                        &&& res.1 == at
                        &&& idxs_at(ns0, at as int) == Set::<int>::empty().insert(at as int)
                        &&& keys_at(ns0, at as int) == Set::<u64>::empty().insert(key)
                        &&& ns1 == ns0
                    },
                }
            }),
        decreases ht_at(old(self).nodes_of(old(st)@), at as int), 0int,
    {
        let ghost ns0 = self.nodes_of(st@);
        let ghost len0 = self.spec_len();
        let mut node = match self.node(st, at) {
            Some(n) => n,
            None => Node::of(0, 0),
        };
        let ghost n0 = ns0[at as int];
        proof {
            lemma_members(ns0, at as int);
            lemma_subtree_disjoint(ns0, at as int);
            assert(keys_at(ns0, at as int).contains(n0.key));
        }
        let (l, rr) = match (node.lft, node.rgt) {
            (Some(l), Some(rr)) => (l, rr),
            _ => {
                return (Some(at), at);
            },
        };
        proof {
            assert(wf_at(ns0, l as int) && bal_at(ns0, l as int));
            assert(wf_at(ns0, rr as int) && bal_at(ns0, rr as int));
        }
            let pair = match self.max_at(st, l, at) {
                Some(x) => x,
                None => (Node::of(0, 0), Node::of(0, 0)),
            };
            let k2 = pair.0.key;
            proof {
                assert(keys_at(ns0, l as int).contains(k2));
                assert(k2 < n0.key);
            }
            let (sub, removed) = self.remove_at(st, l, k2);
            let ghost ns_a = self.nodes_of(st@);
            let ghost d = removed as int;
            proof {
                assert(!idxs_at(ns0, l as int).contains(at as int));
                assert(ns_a[at as int] == n0);
                lemma_members(ns0, rr as int);
                assert forall|j: int| #[trigger] idxs_at(ns0, rr as int).contains(j)
                    implies 0 <= j < ns_a.len() && ns_a[j] == ns0[j] by {
                    assert(idxs_at(ns0, l as int).disjoint(idxs_at(ns0, rr as int)));
                    assert(!idxs_at(ns0, l as int).contains(j));
                }
                lemma_frame(ns0, ns_a, rr as int);
                match sub {
                    Some(r0) => {},
                    None => {
                        assert(idxs_at(ns0, l as int) == Set::<int>::empty().insert(
                            l as int,
                        ));
                        assert(ns0[l as int].lft is None) by {
                            match ns0[l as int].lft {
                                Some(x) => {
                                    lemma_members(ns0, x as int);
                                    assert(idxs_at(ns0, l as int).contains(x as int));
                                    assert(ns0[x as int].ht < ns0[l as int].ht);
                                    assert(idxs_at(ns0, x as int).contains(x as int));
                                },
                                None => {},
                            }
                        }
                        assert(ns0[l as int].rgt is None) by {
                            match ns0[l as int].rgt {
                                Some(x) => {
                                    lemma_members(ns0, x as int);
                                    assert(idxs_at(ns0, l as int).contains(x as int));
                                    assert(ns0[x as int].ht < ns0[l as int].ht);
                                    assert(idxs_at(ns0, x as int).contains(x as int));
                                },
                                None => {},
                            }
                        }
                        assert(ht_at(ns0, l as int) == 1);
                    },
                }
            }
            node.lft = sub;
            node.key = k2;
            self.update_height(st, &mut node);
            let ghost ns_b = self.nodes_of(st@);
            let ghost n2 = ns_b[at as int];
            proof {
                assert(ns_b == ns_a.update(at as int, n2));
                assert(n2.key == k2);
                match sub {
                    Some(r0) => {
                        assert(!idxs_at(ns_a, r0 as int).contains(at as int)) by {
                            assert(idxs_at(ns_a, r0 as int) == idxs_at(
                                ns0,
                                l as int,
                            ).remove(d));
                        }
                        lemma_members(ns_a, r0 as int);
                        assert forall|j: int|
                            #[trigger] idxs_at(ns_a, r0 as int).contains(j) implies 0
                            <= j < ns_b.len() && ns_b[j] == ns_a[j] by {}
                        lemma_frame(ns_a, ns_b, r0 as int);
                    },
                    None => {},
                }
                lemma_members(ns_a, rr as int);
                assert forall|j: int| #[trigger] idxs_at(ns_a, rr as int).contains(j)
                    implies 0 <= j < ns_b.len() && ns_b[j] == ns_a[j] by {
                    assert(idxs_at(ns0, rr as int).contains(j));
                    assert(j != at as int);
                }
                lemma_frame(ns_a, ns_b, rr as int);
                assert(wf_at(ns_b, at as int)) by {
                    match sub {
                        Some(r0) => {
                            assert forall|k: u64|
                                keys_at(ns_b, r0 as int).contains(k) implies k
                                < k2 by {
                                assert(keys_at(ns0, l as int).remove(k2).contains(k));
                                assert(keys_at(ns0, l as int).contains(k));
                                assert(k <= k2 && k != k2);
                            }
                        },
                        None => {},
                    }
                    assert forall|k: u64| keys_at(ns_b, rr as int).contains(k)
                        implies k > k2 by {
                        assert(keys_at(ns0, rr as int).contains(k));
                        assert(k > n0.key);
                    }
                }
                assert(keys_at(ns_b, at as int) =~= keys_at(ns0, at as int).remove(
                    key,
                )) by {
                    assert(keys_at(ns0, l as int).contains(k2));
                    match sub {
                        Some(r0) => {
                            assert(keys_at(ns_b, r0 as int) == keys_at(
                                ns0,
                                l as int,
                            ).remove(k2));
                        },
                        None => {},
                    }
                    assert(k2 != key);
                    if keys_at(ns0, rr as int).contains(key) {
                        assert(key > n0.key);
                    }
                }
                assert(idxs_at(ns_b, at as int) =~= idxs_at(ns0, at as int).remove(
                    d,
                )) by {
                    assert(idxs_at(ns0, l as int).contains(d));
                    assert(d != at as int);
                    assert(!idxs_at(ns0, rr as int).contains(d));
                }
                assert(balance_pre(ns_b, n2)) by {
                    assert(ns_b[at as int] == n2);
                    let hl0 = child_ht(ns0, n0.lft);
                    let hr0 = child_ht(ns0, n0.rgt);
                    assert(hl0 <= hr0 + 1 && hr0 <= hl0 + 1);
                    assert(child_ht(ns_b, n2.rgt) == hr0);
                    assert(hl0 - 1 <= child_ht(ns_b, n2.lft) <= hl0);
                    assert(ht_at(ns_b, at as int) < u64::MAX - 1);
                }
            }
            let r = self.enforce_balance(st, &mut node);
            proof {
                let ns1 = self.nodes_of(st@);
                assert(keys_at(ns1, r as int) == keys_at(ns0, at as int).remove(key));
                assert(idxs_at(ns1, r as int) == idxs_at(ns0, at as int).remove(d));
                assert(ht_at(ns0, at as int) - 1 <= ht_at(ns1, r as int) <= ht_at(
                    ns0,
                    at as int,
                )) by {
                    let hl0 = child_ht(ns0, n0.lft);
                    let hr0 = child_ht(ns0, n0.rgt);
                    let f = child_ht(ns_b, n2.lft);
                    assert(ht_at(ns0, at as int) == new_ht(hl0, hr0));
                    assert(ht_at(ns_b, at as int) == new_ht(f, hr0));
                    if f + 1 <= hr0 + 1 && hr0 <= f + 1 {
                        assert(ht_at(ns1, r as int) == ht_at(ns_b, at as int));
                    }
                }
                assert forall|j: int|
                    0 <= j < len0 && !idxs_at(ns0, at as int).contains(j) implies ns1[j]
                    == ns0[j] by {
                    assert(!idxs_at(ns0, l as int).contains(j));
                    assert(ns_a[j] == ns0[j]);
                    assert(j != at as int);
                    assert(ns_b[j] == ns_a[j]);
                    assert(!idxs_at(ns_b, at as int).contains(j));
                    assert(ns1[j] == ns_b[j]);
                }
            }
            (Some(r), removed)

    }

    // Removes the node at `at` itself when it has two children, mirroring
    // `remove_via_pred` with the in-order successor from the right subtree.
    #[verifier::rlimit(100)]
    #[verifier::spinoff_prover]
    fn remove_via_succ(&mut self, st: &mut Store, at: u64, key: u64) -> (res: (Option<u64>, u64))
        requires
            old(self).wf(old(st)@),
            at < old(self).spec_len(),
            wf_at(old(self).nodes_of(old(st)@), at as int),
            bal_at(old(self).nodes_of(old(st)@), at as int),
            keys_at(old(self).nodes_of(old(st)@), at as int).contains(key),
            ht_at(old(self).nodes_of(old(st)@), at as int) < u64::MAX - 1,
            key == old(self).nodes_of(old(st)@)[at as int].key,
            old(self).nodes_of(old(st)@)[at as int].lft is Some,
            old(self).nodes_of(old(st)@)[at as int].rgt is Some,
        ensures
            final(self).wf(final(st)@),
            final(self).spec_root() == old(self).spec_root(),
            final(self).val_prefix() == old(self).val_prefix(),
            final(self).node_prefix() == old(self).node_prefix(),
            final(self).spec_len() == old(self).spec_len(),
            agree_outside_region(old(st)@, final(st)@, old(self).node_prefix()),
            final(self).view(final(st)@) == old(self).view(old(st)@),
            ({
                let ns0 = old(self).nodes_of(old(st)@);
                let ns1 = final(self).nodes_of(final(st)@);
                let d = res.1 as int;
                &&& res.1 < old(self).spec_len()
                &&& idxs_at(ns0, at as int).contains(d)
                &&& (forall|j: int|
                    0 <= j < old(self).spec_len() && !idxs_at(ns0, at as int).contains(j) ==> ns1[j]
                        == ns0[j])
                &&& match res.0 {
                    Some(r) => {
                        &&& r < old(self).spec_len()
                        &&& wf_at(ns1, r as int)
                        &&& bal_at(ns1, r as int)
                        &&& keys_at(ns1, r as int) == keys_at(ns0, at as int).remove(key)
                        &&& idxs_at(ns1, r as int) == idxs_at(ns0, at as int).remove(d)
                        &&& ht_at(ns0, at as int) - 1 <= ht_at(ns1, r as int) <= ht_at(
                            ns0,
                            at as int,
                        )
                    },
                    None => {
                        &&& res.1 == at
                        &&& idxs_at(ns0, at as int) == Set::<int>::empty().insert(at as int)
                        &&& keys_at(ns0, at as int) == Set::<u64>::empty().insert(key)
                        &&& ns1 == ns0
                    },
                }
            }),
        decreases ht_at(old(self).nodes_of(old(st)@), at as int), 0int,
    {
        let ghost ns0 = self.nodes_of(st@);
        let ghost len0 = self.spec_len();
        let mut node = match self.node(st, at) {
            Some(n) => n,
            None => Node::of(0, 0),
        };
        let ghost n0 = ns0[at as int];
        proof {
            lemma_members(ns0, at as int);
            lemma_subtree_disjoint(ns0, at as int);
            assert(keys_at(ns0, at as int).contains(n0.key));
        }
        let (l, rr) = match (node.lft, node.rgt) {
            (Some(l), Some(rr)) => (l, rr),
            _ => {
                return (Some(at), at);
            },
        };
        proof {
            assert(wf_at(ns0, l as int) && bal_at(ns0, l as int));
            assert(wf_at(ns0, rr as int) && bal_at(ns0, rr as int));
        }
            let pair = match self.min_at(st, rr, at) {
                Some(x) => x,
                None => (Node::of(0, 0), Node::of(0, 0)),
            };
            let k2 = pair.0.key;
            proof {
                assert(keys_at(ns0, rr as int).contains(k2));
                assert(k2 > n0.key);
            }
            let (sub, removed) = self.remove_at(st, rr, k2);
            let ghost ns_a = self.nodes_of(st@);
            let ghost d = removed as int;
            proof {
                assert(!idxs_at(ns0, rr as int).contains(at as int));
                assert(ns_a[at as int] == n0);
                lemma_members(ns0, l as int);
                assert forall|j: int| #[trigger] idxs_at(ns0, l as int).contains(j)
                    implies 0 <= j < ns_a.len() && ns_a[j] == ns0[j] by {
                    assert(idxs_at(ns0, l as int).disjoint(idxs_at(ns0, rr as int)));
                    assert(!idxs_at(ns0, rr as int).contains(j));
                }
                lemma_frame(ns0, ns_a, l as int);
                match sub {
                    Some(r0) => {},
                    None => {
                        assert(idxs_at(ns0, rr as int) == Set::<int>::empty().insert(
                            rr as int,
                        ));
                        assert(ns0[rr as int].lft is None) by {
                            match ns0[rr as int].lft {
                                Some(x) => {
                                    lemma_members(ns0, x as int);
                                    assert(idxs_at(ns0, rr as int).contains(
                                        x as int,
                                    ));
                                    assert(ns0[x as int].ht < ns0[rr as int].ht);
                                    assert(idxs_at(ns0, x as int).contains(x as int));
                                },
                                None => {},
                            }
                        }
                        assert(ns0[rr as int].rgt is None) by {
                            match ns0[rr as int].rgt {
                                Some(x) => {
                                    lemma_members(ns0, x as int);
                                    assert(idxs_at(ns0, rr as int).contains(
                                        x as int,
                                    ));
                                    assert(ns0[x as int].ht < ns0[rr as int].ht);
                                    assert(idxs_at(ns0, x as int).contains(x as int));
                                },
                                None => {},
                            }
                        }
                        assert(ht_at(ns0, rr as int) == 1);
                    },
                }
            }
            node.rgt = sub;
            node.key = k2;
            self.update_height(st, &mut node);
            let ghost ns_b = self.nodes_of(st@);
            let ghost n2 = ns_b[at as int];
            proof {
                assert(ns_b == ns_a.update(at as int, n2));
                assert(n2.key == k2);
                match sub {
                    Some(r0) => {
                        assert(!idxs_at(ns_a, r0 as int).contains(at as int)) by {
                            assert(idxs_at(ns_a, r0 as int) == idxs_at(
                                ns0,
                                rr as int,
                            ).remove(d));
                        }
                        lemma_members(ns_a, r0 as int);
                        assert forall|j: int|
                            #[trigger] idxs_at(ns_a, r0 as int).contains(j) implies 0
                            <= j < ns_b.len() && ns_b[j] == ns_a[j] by {}
                        lemma_frame(ns_a, ns_b, r0 as int);
                    },
                    None => {},
                }
                lemma_members(ns_a, l as int);
                assert forall|j: int| #[trigger] idxs_at(ns_a, l as int).contains(j)
                    implies 0 <= j < ns_b.len() && ns_b[j] == ns_a[j] by {
                    assert(idxs_at(ns0, l as int).contains(j));
                    assert(j != at as int);
                }
                lemma_frame(ns_a, ns_b, l as int);
                assert(wf_at(ns_b, at as int)) by {
                    match sub {
                        Some(r0) => {
                            assert forall|k: u64|
                                keys_at(ns_b, r0 as int).contains(k) implies k
                                > k2 by {
                                assert(keys_at(ns0, rr as int).remove(k2).contains(
                                    k,
                                ));
                                assert(keys_at(ns0, rr as int).contains(k));
                                assert(k >= k2 && k != k2);
                            }
                        },
                        None => {},
                    }
                    assert forall|k: u64| keys_at(ns_b, l as int).contains(k)
                        implies k < k2 by {
                        assert(keys_at(ns0, l as int).contains(k));
                        assert(k < n0.key);
                    }
                }
                assert(keys_at(ns_b, at as int) =~= keys_at(ns0, at as int).remove(
                    key,
                )) by {
                    assert(keys_at(ns0, rr as int).contains(k2));
                    match sub {
                        Some(r0) => {
                            assert(keys_at(ns_b, r0 as int) == keys_at(
                                ns0,
                                rr as int,
                            ).remove(k2));
                        },
                        None => {},
                    }
                    assert(k2 != key);
                    if keys_at(ns0, l as int).contains(key) {
                        assert(key < n0.key);
                    }
                }
                assert(idxs_at(ns_b, at as int) =~= idxs_at(ns0, at as int).remove(
                    d,
                )) by {
                    assert(idxs_at(ns0, rr as int).contains(d));
                    assert(d != at as int);
                    assert(!idxs_at(ns0, l as int).contains(d));
                }
                assert(balance_pre(ns_b, n2)) by {
                    assert(ns_b[at as int] == n2);
                    let hl0 = child_ht(ns0, n0.lft);
                    let hr0 = child_ht(ns0, n0.rgt);
                    assert(hl0 <= hr0 + 1 && hr0 <= hl0 + 1);
                    assert(child_ht(ns_b, n2.lft) == hl0);
                    assert(hr0 - 1 <= child_ht(ns_b, n2.rgt) <= hr0);
                    assert(ht_at(ns_b, at as int) < u64::MAX - 1);
                }
            }
            let r = self.enforce_balance(st, &mut node);
            proof {
                let ns1 = self.nodes_of(st@);
                assert(keys_at(ns1, r as int) == keys_at(ns0, at as int).remove(key));
                assert(idxs_at(ns1, r as int) == idxs_at(ns0, at as int).remove(d));
                assert(ht_at(ns0, at as int) - 1 <= ht_at(ns1, r as int) <= ht_at(
                    ns0,
                    at as int,
                )) by {
                    let hl0 = child_ht(ns0, n0.lft);
                    let hr0 = child_ht(ns0, n0.rgt);
                    let f = child_ht(ns_b, n2.rgt);
                    assert(ht_at(ns0, at as int) == new_ht(hl0, hr0));
                    assert(ht_at(ns_b, at as int) == new_ht(hl0, f));
                    if hl0 <= f + 1 && f <= hl0 + 1 {
                        assert(ht_at(ns1, r as int) == ht_at(ns_b, at as int));
                    }
                }
                assert forall|j: int|
                    0 <= j < len0 && !idxs_at(ns0, at as int).contains(j) implies ns1[j]
                    == ns0[j] by {
                    assert(!idxs_at(ns0, rr as int).contains(j));
                    assert(ns_a[j] == ns0[j]);
                    assert(j != at as int);
                    assert(ns_b[j] == ns_a[j]);
                    assert(!idxs_at(ns_b, at as int).contains(j));
                    assert(ns1[j] == ns_b[j]);
                }
            }
            (Some(r), removed)

    }

    // Plain binary-search descent for the node holding `key` and its
    // immediate parent (the node itself when it is the subtree root).  The
    // walk is bounded by the arena length, so it ends even on a damaged tree.
    fn lookup_at(&self, st: &Store, at: u64, key: u64) -> (r: Option<(Node, Node)>)
        requires
            self.wf(st@),
        ensures
            ({
                let ns = self.nodes_of(st@);
                match r {
                    Some(pair) => pair.0.id < self.spec_len() && pair.0 == ns[pair.0.id as int]
                        && pair.0.key == key && pair.1.id < self.spec_len() && pair.1
                        == ns[pair.1.id as int],
                    None => true,
                }
            }),
            at < self.spec_len() && wf_at(self.nodes_of(st@), at as int) ==> ({
                let ns = self.nodes_of(st@);
                match r {
                    Some(pair) => {
                        &&& keys_at(ns, at as int).contains(key)
                        &&& idxs_at(ns, at as int).contains(pair.0.id as int)
                        &&& idxs_at(ns, at as int).contains(pair.1.id as int)
                        &&& (pair.0.id == at ==> pair.1 == ns[at as int])
                        &&& (pair.0.id != at ==> pair.1.lft == Some(pair.0.id) || pair.1.rgt
                            == Some(pair.0.id))
                    },
                    None => !keys_at(ns, at as int).contains(key),
                }
            }),
    {
        let ghost ns = self.nodes_of(st@);
        let ghost sp = at < self.spec_len() && wf_at(ns, at as int);
        let mut p = match self.node(st, at) {
            Some(x) => x,
            None => {
                return None;
            },
        };
        let mut cur = at;
        let mut fuel = self.tree.len();
        proof {
            if sp {
                lemma_ht_le_size(ns, at as int);
                lemma_members(ns, at as int);
                vstd::set_lib::lemma_int_range(0, self.spec_len() as int);
                assert(idxs_at(ns, at as int).subset_of(
                    set_int_range(0, self.spec_len() as int),
                )) by {
                    assert forall|j: int| #[trigger] idxs_at(ns, at as int).contains(j)
                        implies set_int_range(0, self.spec_len() as int).contains(j) by {}
                }
                vstd::set_lib::lemma_len_subset(
                    idxs_at(ns, at as int),
                    set_int_range(0, self.spec_len() as int),
                );
                assert(ht_at(ns, at as int) <= self.spec_len());
                assert(idxs_at(ns, at as int).contains(at as int));
            }
        }
        loop
            invariant
                self.wf(st@),
                ns == self.nodes_of(st@),
                sp == (at < self.spec_len() && wf_at(ns, at as int)),
                p.id < self.spec_len(),
                p == ns[p.id as int],
                sp ==> {
                    &&& cur < self.spec_len()
                    &&& wf_at(ns, cur as int)
                    &&& idxs_at(ns, at as int).contains(cur as int)
                    &&& ht_at(ns, cur as int) <= fuel
                    &&& (keys_at(ns, at as int).contains(key) <==> keys_at(
                        ns,
                        cur as int,
                    ).contains(key))
                    &&& (forall|j: int| #[trigger] idxs_at(ns, cur as int).contains(j)
                        ==> idxs_at(ns, at as int).contains(j))
                    &&& idxs_at(ns, at as int).contains(p.id as int)
                    &&& (cur == at ==> p == ns[at as int])
                    &&& (cur != at ==> p.lft == Some(cur) || p.rgt == Some(cur))
                },
            decreases fuel,
        {
            if fuel == 0 {
                proof {
                    if sp {
                        assert(ht_at(ns, cur as int) >= 1);
                        assert(false);
                    }
                }
                return None;
            }
            fuel = fuel - 1;
            match self.node(st, cur) {
                Some(node) => {
                    proof {
                        if sp {
                            lemma_members(ns, cur as int);
                            assert(keys_at(ns, cur as int).contains(node.key));
                        }
                    }
                    if node.key == key {
                        return Some((node, p));
                    } else if node.key < key {
                        match node.rgt {
                            Some(rgt) => {
                                proof {
                                    if sp {
                                        assert(wf_at(ns, rgt as int));
                                        lemma_members(ns, rgt as int);
                                        assert(idxs_at(ns, cur as int).contains(rgt as int));
                                        assert forall|j: int|
                                            #[trigger] idxs_at(ns, rgt as int).contains(j)
                                            implies idxs_at(ns, at as int).contains(j) by {
                                            assert(idxs_at(ns, cur as int).contains(j));
                                        }
                                        if keys_at(ns, cur as int).contains(key) {
                                            if !keys_at(ns, rgt as int).contains(key) {
                                                match node.lft {
                                                    Some(lft) => {
                                                        if keys_at(ns, lft as int).contains(key) {
                                                            assert(key < node.key);
                                                        }
                                                    },
                                                    None => {},
                                                }
                                                assert(false);
                                            }
                                        }
                                    }
                                }
                                p = node;
                                cur = rgt;
                            },
                            None => {
                                proof {
                                    if sp && keys_at(ns, cur as int).contains(key) {
                                        match node.lft {
                                            Some(lft) => {
                                                if keys_at(ns, lft as int).contains(key) {
                                                    assert(key < node.key);
                                                }
                                            },
                                            None => {},
                                        }
                                        assert(false);
                                    }
                                }
                                return None;
                            },
                        }
                    } else {
                        match node.lft {
                            Some(lft) => {
                                proof {
                                    if sp {
                                        assert(wf_at(ns, lft as int));
                                        lemma_members(ns, lft as int);
                                        assert(idxs_at(ns, cur as int).contains(lft as int));
                                        assert forall|j: int|
                                            #[trigger] idxs_at(ns, lft as int).contains(j)
                                            implies idxs_at(ns, at as int).contains(j) by {
                                            assert(idxs_at(ns, cur as int).contains(j));
                                        }
                                        if keys_at(ns, cur as int).contains(key) {
                                            if !keys_at(ns, lft as int).contains(key) {
                                                match node.rgt {
                                                    Some(rgt) => {
                                                        if keys_at(ns, rgt as int).contains(key) {
                                                            assert(key > node.key);
                                                        }
                                                    },
                                                    None => {},
                                                }
                                                assert(false);
                                            }
                                        }
                                    }
                                }
                                p = node;
                                cur = lft;
                            },
                            None => {
                                proof {
                                    if sp && keys_at(ns, cur as int).contains(key) {
                                        match node.rgt {
                                            Some(rgt) => {
                                                if keys_at(ns, rgt as int).contains(key) {
                                                    assert(key > node.key);
                                                }
                                            },
                                            None => {},
                                        }
                                        assert(false);
                                    }
                                }
                                return None;
                            },
                        }
                    }
                },
                None => {
                    proof {
                        if sp {
                            assert(false);
                        }
                    }
                    return None;
                },
            }
        }
    }

    // Relocation precondition for `swap_with_last`: the arena holds one
    // well-formed, balanced tree on exactly the slots other than `id` (or a
    // lone detached slot when the tree is empty).
    spec fn swap_pre(self, m: Map<Seq<u8>, Seq<u8>>, id: u64) -> bool {
        let ns = self.nodes_of(m);
        let root = self.spec_root() as int;
        &&& self.spec_len() > 0
        &&& id < self.spec_len()
        &&& (self.spec_len() == 1 ==> id == 0)
        &&& (self.spec_len() > 1 ==> self.spec_root() < self.spec_len() && wf_at(ns, root)
            && bal_at(ns, root) && idxs_at(ns, root) == set_int_range(
            0,
            self.spec_len() as int,
        ).remove(id as int))
    }

    // Moves the node at the highest arena index into the vacated slot `id`
    // (fixing the one link that referenced it, or the root) and truncates the
    // arena, so that live indices stay exactly `0 .. len`.
    #[verifier::rlimit(100)]
    #[verifier::spinoff_prover]
    fn swap_with_last(&mut self, st: &mut Store, id: u64)
        requires
            old(self).wf(old(st)@),
            old(self).spec_len() > 0,
            id < old(self).spec_len(),
        ensures
            final(self).wf(final(st)@),
            final(self).val_prefix() == old(self).val_prefix(),
            final(self).node_prefix() == old(self).node_prefix(),
            final(self).spec_len() == old(self).spec_len() - 1,
            agree_outside_region(old(st)@, final(st)@, old(self).node_prefix()),
            final(self).view(final(st)@) == old(self).view(old(st)@),
            id == old(self).spec_len() - 1 ==> final(self).spec_root() == old(self).spec_root(),
            old(self).swap_pre(old(st)@, id) ==> ({
                let ns0 = old(self).nodes_of(old(st)@);
                let root0 = old(self).spec_root() as int;
                let ns1 = final(self).nodes_of(final(st)@);
                let root1 = final(self).spec_root() as int;
                old(self).spec_len() > 1 ==> {
                    &&& final(self).spec_root() == (if old(self).spec_root() == old(
                        self,
                    ).spec_len() - 1 {
                        id
                    } else {
                        old(self).spec_root()
                    })
                    &&& final(self).spec_root() < final(self).spec_len()
                    &&& wf_at(ns1, root1)
                    &&& bal_at(ns1, root1)
                    &&& keys_at(ns1, root1) == keys_at(ns0, root0)
                    &&& idxs_at(ns1, root1) == set_int_range(0, final(self).spec_len() as int)
                }
            }),
    {
        let ghost m0 = st@;
        let ghost me0 = *self;
        let ghost ns0 = self.nodes_of(st@);
        let ghost sw = me0.swap_pre(m0, id);
        let ghost root0 = me0.spec_root() as int;
        let last = self.tree.len() - 1;
        if id == last {
            // the vacated slot is already the highest index
            self.tree.pop_raw(st);
            proof {
                me0.lemma_val_region_stable(m0, st@);
                if sw && me0.spec_len() > 1 {
                    let ns1 = self.nodes_of(st@);
                    assert(ns1 =~= ns0.drop_last());
                    lemma_members(ns0, root0);
                    assert forall|j: int| #[trigger] idxs_at(ns0, root0).contains(j) implies 0 <= j
                        < ns1.len() && ns1[j] == ns0[j] by {
                        assert(j != id as int);
                        assert(j < me0.spec_len());
                    }
                    lemma_frame(ns0, ns1, root0);
                    assert(idxs_at(ns1, root0) =~= set_int_range(
                        0,
                        me0.spec_len() as int - 1,
                    ));
                    assert(me0.spec_root() != id);
                }
            }
            return ;
        }
        let key = match self.node(st, last) {
            Some(n) => n.key,
            None => {
                // unreachable: the last index is always a live slot
                self.tree.pop_raw(st);
                proof {
                    me0.lemma_val_region_stable(m0, st@);
                }
                return ;
            },
        };
        proof {
            if sw {
                lemma_members(ns0, root0);
                assert(idxs_at(ns0, root0).contains(last as int));
                assert(keys_at(ns0, root0).contains(key)) by {
                    assert(ns0[last as int].key == key);
                }
            }
        }
        let root = self.root;
        let found = self.lookup_at(st, root, key);
        match found {
            Some(pair) => {
                let mut n = pair.0;
                let mut p = pair.1;
                proof {
                    if sw {
                        assert(n.id == last) by {
                            lemma_key_injective(ns0, root0, n.id as int, last as int);
                        }
                        lemma_links(ns0, root0);
                        lemma_subtree_disjoint(ns0, root0);
                    }
                }
                if n.id != p.id {
                    let relink = match p.lft {
                        Some(x) => x == n.id,
                        None => false,
                    };
                    if relink {
                        p.lft = Some(id);
                    } else {
                        p.rgt = Some(id);
                    }
                    let pc = p;
                    proof {
                        if sw {
                            assert(pair.1.lft == Some(n.id) || pair.1.rgt == Some(n.id));
                            assert(pair.1.lft != pair.1.rgt) by {
                                if pair.1.lft == Some(n.id) && pair.1.rgt == Some(n.id) {
                                    lemma_wf_descend(ns0, root0, pair.1.id as int);
                                    lemma_subtree_disjoint(ns0, pair.1.id as int);
                                    lemma_members(ns0, n.id as int);
                                }
                            }
                            assert(pc == rename_node(ns0[pair.1.id as int], last, id));
                        }
                    }
                    self.save(st, &pc);
                }
                if self.root == n.id {
                    self.root = id;
                }
                n.id = id;
                let nc = n;
                self.save(st, &nc);
                self.tree.pop_raw(st);
                proof {
                    crate::keys::lemma_agree_outside_trans(m0, st@, st@, me0.node_prefix());
                    me0.lemma_val_region_stable(m0, st@);
                    if sw {
                        let ns1 = self.nodes_of(st@);
                        let pid = pair.1.id as int;
                        assert forall|j: int| #[trigger] idxs_at(ns0, root0).contains(j) implies 0
                            <= rename_idx(j, last, id) < ns1.len() && ns1[rename_idx(j, last, id)]
                            == rename_node(ns0[j], last, id) by {
                            assert(j < me0.spec_len() && j != id as int);
                            if j == last as int {
                                assert(ns1[id as int] == nc);
                                assert(!links_to(ns0[j], last)) by {
                                    assert(idxs_at(ns0, root0).contains(j));
                                }
                                assert(nc == rename_node(ns0[j], last, id));
                            } else if pair.0.id != pair.1.id && j == pid {
                                assert(ns1[j] == rename_node(ns0[j], last, id));
                            } else {
                                // no other slot links the moved index
                                assert(!links_to(ns0[j], last)) by {
                                    if links_to(ns0[j], last) {
                                        if pair.0.id == pair.1.id {
                                            // the moved node is the root: nothing links it
                                            assert(!links_to(ns0[j], root0 as u64));
                                        } else {
                                            assert(links_to(ns0[pid], last));
                                            assert(idxs_at(ns0, root0).contains(pid));
                                        }
                                    }
                                }
                                assert(ns1[j] == ns0[j]);
                                assert(rename_node(ns0[j], last, id) == ns0[j]);
                            }
                        }
                        assert(!idxs_at(ns0, root0).contains(id as int));
                        lemma_relabel(ns0, ns1, last, id, root0);
                        let root1 = rename_idx(root0, last, id);
                        assert(final(self).spec_root() as int == root1) by {
                            if pair.0.id == pair.1.id {
                                assert(pair.0.id == me0.spec_root()) by {
                                    if pair.0.id != me0.spec_root() {
                                        assert(pair.1.lft == Some(pair.0.id) || pair.1.rgt
                                            == Some(pair.0.id));
                                    }
                                }
                            }
                        }
                        assert(idxs_at(ns1, root1) =~= set_int_range(
                            0,
                            me0.spec_len() as int - 1,
                        ));
                    }
                }
            },
            None => {
                // unreachable when the arena holds a well-formed tree: its
                // last slot's key is always found
                proof {
                    if sw {
                        assert(false);
                    }
                }
                self.tree.pop_raw(st);
                proof {
                    me0.lemma_val_region_stable(m0, st@);
                }
            },
        }
    }

    // Removes the node holding `key` from the tree index (the value region
    // is untouched) and returns the new root index: the key's node leaves the
    // tree with rebalancing along the way back up, and the arena is then
    // compacted by relocating the highest-indexed node into the vacated slot.
    #[verifier::rlimit(100)]
    #[verifier::spinoff_prover]
    fn do_remove(&mut self, st: &mut Store, key: u64) -> (new_root: u64)
        requires
            old(self).inv(old(st)@),
            old(self).view(old(st)@).contains_key(key),
            old(self).spec_len() < u64::MAX - 1,
        ensures
            final(self).wf(final(st)@),
            final(self).val_prefix() == old(self).val_prefix(),
            final(self).node_prefix() == old(self).node_prefix(),
            final(self).spec_len() == old(self).spec_len() - 1,
            agree_outside_region(old(st)@, final(st)@, old(self).node_prefix()),
            final(self).view(final(st)@) == old(self).view(old(st)@),
            new_root == final(self).spec_root(),
            final(self).spec_len() == 0 ==> final(self).spec_root() == 0,
            final(self).spec_len() > 0 ==> ({
                let ns1 = final(self).nodes_of(final(st)@);
                let root1 = final(self).spec_root() as int;
                &&& final(self).spec_root() < final(self).spec_len()
                &&& wf_at(ns1, root1)
                &&& bal_at(ns1, root1)
                &&& keys_at(ns1, root1) == keys_at(
                    old(self).nodes_of(old(st)@),
                    old(self).spec_root() as int,
                ).remove(key)
                &&& idxs_at(ns1, root1) == set_int_range(0, final(self).spec_len() as int)
            }),
    {
        let ghost ns0 = self.nodes_of(st@);
        let ghost m0 = st@;
        let ghost me0 = *self;
        let ghost root0 = self.spec_root() as int;
        proof {
            if self.spec_len() == 0 {
                assert(self.view(m0).dom().contains(key));
                assert(false);
            }
            assert(wf_at(ns0, root0) && bal_at(ns0, root0));
            assert(keys_at(ns0, root0).contains(key));
            lemma_ht_le_size(ns0, root0);
            vstd::set_lib::lemma_int_range(0, self.spec_len() as int);
            assert(ht_at(ns0, root0) <= self.spec_len());
        }
        let root = self.root;
        let (sub, d) = self.remove_at(st, root, key);
        let ghost ns_a = self.nodes_of(st@);
        match sub {
            Some(r0) => {
                self.root = r0;
                proof {
                    // with a surviving subtree the arena holds at least two
                    // slots: the subtree's root and the detached one
                    assert(idxs_at(ns_a, r0 as int).contains(r0 as int)) by {
                        lemma_members(ns_a, r0 as int);
                    }
                    assert(r0 != d);
                    assert(set_int_range(0, me0.spec_len() as int).contains(r0 as int));
                    assert(me0.spec_len() > 1);
                    assert(idxs_at(ns_a, r0 as int) =~= set_int_range(
                        0,
                        me0.spec_len() as int,
                    ).remove(d as int));
                    assert(self.swap_pre(st@, d));
                }
            },
            None => {
                self.root = 0;
                proof {
                    // the tree was a single node, which is the last slot
                    assert(idxs_at(ns0, root0) == Set::<int>::empty().insert(root0));
                    assert(set_int_range(0, me0.spec_len() as int) =~= Set::<
                        int,
                    >::empty().insert(root0));
                    assert(set_int_range(0, me0.spec_len() as int).contains(0)) by {
                        if me0.spec_len() >= 1 {
                        }
                    }
                    assert(root0 == 0);
                    assert(me0.spec_len() == 1) by {
                        if me0.spec_len() > 1 {
                            assert(set_int_range(0, me0.spec_len() as int).contains(1));
                        }
                    }
                    assert(d == 0);
                    assert(self.swap_pre(st@, d));
                }
            },
        }
        let ghost me1 = *self;
        self.swap_with_last(st, d);
        proof {
            crate::keys::lemma_agree_outside_trans(m0, st@, st@, me0.node_prefix());
            match sub {
                Some(r0) => {
                    assert(me1.spec_len() > 1);
                    let ns1 = self.nodes_of(st@);
                    let root1 = self.spec_root() as int;
                    assert(keys_at(ns1, root1) == keys_at(ns_a, r0 as int));
                },
                None => {
                    assert(self.spec_len() == 0);
                    assert(self.spec_root() == 0);
                },
            }
        }
        self.root
    }

    /// Removes `key`, returning the value it displaced, if any.  Removing an
    /// absent key leaves the map and the store untouched, byte for byte; a
    /// successful removal restores the full tree invariant before returning.
    pub fn remove(&mut self, st: &mut Store, key: u64) -> (r: Option<u64>)
        requires
            old(self).inv(old(st)@),
            old(self).spec_len() < u64::MAX - 1,
        ensures
            final(self).inv(final(st)@),
            final(self).wf(final(st)@),
            final(self).val_prefix() == old(self).val_prefix(),
            final(self).node_prefix() == old(self).node_prefix(),
            final(self).view(final(st)@) == old(self).view(old(st)@).remove(key),
            agree_outside_two(
                old(st)@,
                final(st)@,
                old(self).val_prefix(),
                old(self).node_prefix(),
            ),
            !old(self).view(old(st)@).contains_key(key) ==> final(st)@ == old(st)@ && *final(self)
                == *old(self),
            r == if old(self).view(old(st)@).contains_key(key) {
                Some(old(self).view(old(st)@)[key])
            } else {
                None::<u64>
            },
            old(self).view(old(st)@).contains_key(key) ==> final(self).spec_len() == old(
                self,
            ).spec_len() - 1,
    {
        let ghost m0 = st@;
        let ghost me0 = *self;
        if self.contains_key(st, key) {
            let new_root = self.do_remove(st, key);
            self.root = new_root;
            let ghost mid = st@;
            let ghost me1 = *self;
            let r = self.val.remove(st, key);
            proof {
                me1.lemma_node_region_stable(mid, st@);
                assert forall|k: Seq<u8>|
                    !me0.val_prefix().is_prefix_of(k) && !me0.node_prefix().is_prefix_of(k)
                    implies (#[trigger] m0.contains_key(k)) == st@.contains_key(k) && (
                m0.contains_key(k) ==> m0[k] == st@[k]) by {
                    assert(m0.contains_key(k) == mid.contains_key(k));
                    assert(mid.contains_key(k) == st@.contains_key(k));
                    if m0.contains_key(k) {
                        assert(m0[k] == mid[k]);
                        assert(mid[k] == st@[k]);
                    }
                }
                // the tree invariant is whole again: the value region lost
                // exactly the removed key, matching the tree's new key set
                assert(self.view(st@).dom() =~= me0.view(m0).dom().remove(key));
                if self.spec_len() == 0 {
                    assert(me0.spec_len() == 1);
                    assert(idxs_at(me0.nodes_of(m0), me0.spec_root() as int)
                        == set_int_range(0, 1));
                    assert(keys_at(me0.nodes_of(m0), me0.spec_root() as int)
                        == me0.view(m0).dom());
                    assert forall|x: u64| !(#[trigger] self.view(st@).dom().contains(x)) by {
                        if self.view(st@).dom().contains(x) {
                            assert(me0.view(m0).dom().contains(x));
                            assert(keys_at(me0.nodes_of(m0), me0.spec_root() as int).contains(
                                x,
                            ));
                            lemma_members(me0.nodes_of(m0), me0.spec_root() as int);
                            let j = choose|j: int|
                                idxs_at(me0.nodes_of(m0), me0.spec_root() as int).contains(j)
                                    && me0.nodes_of(m0)[j].key == x;
                            assert(j == me0.spec_root() as int);
                            assert(keys_at(me0.nodes_of(m0), me0.spec_root() as int).contains(
                                key,
                            ));
                            lemma_key_injective(
                                me0.nodes_of(m0),
                                me0.spec_root() as int,
                                me0.spec_root() as int,
                                me0.spec_root() as int,
                            );
                            assert(x == me0.nodes_of(m0)[me0.spec_root() as int].key);
                            assert(key == me0.nodes_of(m0)[me0.spec_root() as int].key) by {
                                let j2 = choose|j2: int|
                                    idxs_at(me0.nodes_of(m0), me0.spec_root() as int).contains(
                                        j2,
                                    ) && me0.nodes_of(m0)[j2].key == key;
                                assert(j2 == me0.spec_root() as int);
                            }
                        }
                    }
                    assert(self.view(st@).dom() =~= Set::<u64>::empty());
                } else {
                    assert(keys_at(self.nodes_of(st@), self.spec_root() as int) =~= self.view(
                        st@,
                    ).dom()) by {
                        assert(keys_at(self.nodes_of(mid), me1.spec_root() as int)
                            == keys_at(me0.nodes_of(m0), me0.spec_root() as int).remove(key));
                        assert(self.nodes_of(st@) == self.nodes_of(mid));
                        assert(keys_at(me0.nodes_of(m0), me0.spec_root() as int)
                            == me0.view(m0).dom());
                    }
                }
                assert(self.inv(st@));
            }
            r
        } else {
            proof {
                assert(me0.view(m0).remove(key) =~= me0.view(m0));
            }
            None
        }
    }

    /// Deletes every entry: the tree's keys are removed from the value region
    /// and the node arena is truncated to nothing.
    pub fn clear(&mut self, st: &mut Store)
        requires
            old(self).inv(old(st)@),
        ensures
            final(self).inv(final(st)@),
            final(self).wf(final(st)@),
            final(self).val_prefix() == old(self).val_prefix(),
            final(self).node_prefix() == old(self).node_prefix(),
            final(self).spec_len() == 0,
            final(self).view(final(st)@) == Map::<u64, u64>::empty(),
            agree_outside_two(
                old(st)@,
                final(st)@,
                old(self).val_prefix(),
                old(self).node_prefix(),
            ),
    {
        let ghost m0 = st@;
        let ghost me0 = *self;
        let ghost ns0 = self.nodes_of(st@);
        self.root = 0;
        let n = self.tree.len();
        let mut i: u64 = 0;
        while i < n
            invariant
                self.val == me0.val,
                self.tree == me0.tree,
                self.spec_root() == 0,
                n == self.spec_len(),
                i <= n,
                me0.wf(m0),
                self.wf(st@),
                ns0 == self.nodes_of(st@),
                self.val_prefix() == me0.val_prefix(),
                self.node_prefix() == me0.node_prefix(),
                forall|k: u64| #[trigger] self.view(st@).contains_key(k) ==> me0.view(
                    m0,
                ).contains_key(k),
                forall|j: int| 0 <= j < i ==> !self.view(st@).contains_key(#[trigger] ns0[j].key),
                agree_outside_region(m0, st@, me0.val_prefix()),
            decreases n - i,
        {
            let ghost m_pre = st@;
            let key = match self.node(st, i) {
                Some(node) => node.key,
                None => {
                    // unreachable: every index below the length decodes
                    0
                },
            };
            self.val.remove(st, key);
            proof {
                let me = *self;
                me.lemma_node_region_stable(m_pre, st@);
                crate::keys::lemma_agree_outside_trans(m0, m_pre, st@, me0.val_prefix());
                assert(self.view(st@) == self.view(m_pre).remove(key));
                assert forall|k: u64| #[trigger] self.view(st@).contains_key(k) implies me0.view(
                    m0,
                ).contains_key(k) by {
                    assert(self.view(m_pre).contains_key(k));
                }
                assert forall|j: int| 0 <= j < i + 1 implies !self.view(st@).contains_key(
                    #[trigger] ns0[j].key,
                ) by {
                    if j < i {
                        assert(!self.view(m_pre).contains_key(ns0[j].key));
                    }
                }
            }
            i = i + 1;
        }
        let ghost m_mid = st@;
        proof {
            assert forall|k: u64| !(#[trigger] self.view(m_mid).contains_key(k)) by {
                if self.view(m_mid).contains_key(k) {
                    assert(me0.view(m0).contains_key(k));
                    if me0.spec_len() == 0 {
                        assert(me0.view(m0).dom().contains(k));
                    } else {
                        assert(keys_at(ns0, me0.spec_root() as int).contains(k));
                        lemma_members(ns0, me0.spec_root() as int);
                        let j = choose|j: int|
                            idxs_at(ns0, me0.spec_root() as int).contains(j) && ns0[j].key == k;
                        assert(set_int_range(0, me0.spec_len() as int).contains(j));
                        assert(!self.view(m_mid).contains_key(ns0[j].key));
                    }
                }
            }
        }
        self.tree.clear(st);
        proof {
            let me = *self;
            me.lemma_val_region_stable(m_mid, st@);
            assert(self.view(st@).dom() =~= Set::<u64>::empty());
            assert(self.view(st@) =~= Map::<u64, u64>::empty());
            assert forall|k: Seq<u8>|
                !me0.val_prefix().is_prefix_of(k) && !me0.node_prefix().is_prefix_of(k) implies (
            #[trigger] m0.contains_key(k)) == st@.contains_key(k) && (m0.contains_key(k) ==> m0[k]
                == st@[k]) by {
                assert(m0.contains_key(k) == m_mid.contains_key(k));
                assert(m_mid.contains_key(k) == st@.contains_key(k));
                if m0.contains_key(k) {
                    assert(m0[k] == m_mid[k]);
                    assert(m_mid[k] == st@[k]);
                }
            }
        }
    }

    // Drains a cursor, collecting every entry it emits.  The result holds
    // exactly the entries whose keys lie within the cursor's bounds on the
    // cursor's side of its starting key, in the direction of travel.
    fn collect(&self, st: &Store, cursor: Cursor) -> (r: Vec<(u64, u64)>)
        requires
            self.inv(st@),
            cursor.valid(self.view(st@)),
        ensures
            forall|i: int| 0 <= i < r@.len() ==> self.view(st@).dom().contains(
                (#[trigger] r@[i]).0,
            ) && r@[i].1 == self.view(st@)[r@[i].0] && in_bounds(
                r@[i].0,
                cursor.spec_lo(),
                cursor.spec_hi(),
            ),
            forall|i: int, j: int|
                0 <= i < j < r@.len() ==> if cursor.spec_asc() {
                    r@[i].0 < r@[j].0
                } else {
                    r@[i].0 > r@[j].0
                },
            match cursor.spec_key() {
                Some(k0) => forall|x: u64|
                    self.view(st@).dom().contains(x) && in_bounds(
                        x,
                        cursor.spec_lo(),
                        cursor.spec_hi(),
                    ) && (if cursor.spec_asc() {
                        x >= k0
                    } else {
                        x <= k0
                    }) ==> exists|i: int| 0 <= i < r@.len() && (#[trigger] r@[i]).0 == x,
                None => r@.len() == 0,
            },
            match cursor.spec_key() {
                Some(k0) => forall|i: int| 0 <= i < r@.len() ==> if cursor.spec_asc() {
                    (#[trigger] r@[i]).0 >= k0
                } else {
                    r@[i].0 <= k0
                },
                None => true,
            },
    {
        let mut cur = cursor;
        let ghost c0 = cursor;
        let mut out: Vec<(u64, u64)> = Vec::new();
        loop
            invariant
                self.inv(st@),
                c0 == cursor,
                cur.valid(self.view(st@)),
                cur.spec_asc() == c0.spec_asc(),
                cur.spec_lo() == c0.spec_lo(),
                cur.spec_hi() == c0.spec_hi(),
                forall|i: int| 0 <= i < out@.len() ==> self.view(st@).dom().contains(
                    (#[trigger] out@[i]).0,
                ) && out@[i].1 == self.view(st@)[out@[i].0] && in_bounds(
                    out@[i].0,
                    c0.spec_lo(),
                    c0.spec_hi(),
                ),
                forall|i: int, j: int|
                    0 <= i < j < out@.len() ==> if c0.spec_asc() {
                        out@[i].0 < out@[j].0
                    } else {
                        out@[i].0 > out@[j].0
                    },
                match cur.spec_key() {
                    Some(k) => (forall|i: int| 0 <= i < out@.len() ==> if c0.spec_asc() {
                        (#[trigger] out@[i]).0 < k
                    } else {
                        out@[i].0 > k
                    }),
                    None => true,
                },
                c0.spec_key() is None ==> out@.len() == 0 && cur.spec_key() is None,
                c0.spec_key() is Some ==> (match cur.spec_key() {
                    Some(k) => if c0.spec_asc() {
                        k >= c0.spec_key().unwrap()
                    } else {
                        k <= c0.spec_key().unwrap()
                    },
                    None => true,
                }),
                c0.spec_key() is Some ==> (forall|i: int| 0 <= i < out@.len() ==> if c0.spec_asc() {
                    (#[trigger] out@[i]).0 >= c0.spec_key().unwrap()
                } else {
                    out@[i].0 <= c0.spec_key().unwrap()
                }),
                match c0.spec_key() {
                    Some(k0) => forall|x: u64|
                        self.view(st@).dom().contains(x) && in_bounds(
                            x,
                            c0.spec_lo(),
                            c0.spec_hi(),
                        ) && (if c0.spec_asc() {
                            x >= k0
                        } else {
                            x <= k0
                        }) ==> (exists|i: int| 0 <= i < out@.len() && (#[trigger] out@[i]).0 == x)
                            || (cur.spec_key() is Some && (if c0.spec_asc() {
                            x >= cur.spec_key().unwrap()
                        } else {
                            x <= cur.spec_key().unwrap()
                        })),
                    None => true,
                },
            decreases (match cur.spec_key() {
                Some(k) => if cur.spec_asc() {
                    2 + (u64::MAX - k)
                } else {
                    2 + k
                },
                None => 0int,
            }),
        {
            let ghost pre = cur;
            let ghost out0 = out@;
            match cur.next(self, st) {
                Some(entry) => {
                    out.push(entry);
                    proof {
                        assert(out@ == out0.push(entry));
                        assert forall|i: int, j: int| 0 <= i < j < out@.len() implies (if c0
                            .spec_asc() {
                            out@[i].0 < out@[j].0
                        } else {
                            out@[i].0 > out@[j].0
                        }) by {
                            if j < out0.len() {
                                assert(out@[i] == out0[i] && out@[j] == out0[j]);
                            } else {
                                assert(out@[j] == entry);
                                assert(out@[i] == out0[i]);
                            }
                        }
                        match c0.spec_key() {
                            Some(k0) => {
                                assert forall|x: u64|
                                    self.view(st@).dom().contains(x) && in_bounds(
                                        x,
                                        c0.spec_lo(),
                                        c0.spec_hi(),
                                    ) && (if c0.spec_asc() {
                                        x >= k0
                                    } else {
                                        x <= k0
                                    }) implies (exists|i: int|
                                    0 <= i < out@.len() && (#[trigger] out@[i]).0 == x) || (
                                cur.spec_key() is Some && (if c0.spec_asc() {
                                    x >= cur.spec_key().unwrap()
                                } else {
                                    x <= cur.spec_key().unwrap()
                                })) by {
                                    if x == entry.0 {
                                        assert(out@[out@.len() - 1].0 == x);
                                    } else {
                                        if exists|i: int|
                                            0 <= i < out0.len() && (#[trigger] out0[i]).0 == x {
                                            let i = choose|i: int|
                                                0 <= i < out0.len() && (#[trigger] out0[i]).0
                                                    == x;
                                            assert(out@[i].0 == x);
                                        }
                                    }
                                }
                            },
                            None => {},
                        }
                    }
                },
                None => {
                    return out;
                },
            }
        }
    }

    /// Collects all entries in ascending key order.
    pub fn iter(&self, st: &Store) -> (r: Vec<(u64, u64)>)
        requires
            self.inv(st@),
        ensures
            forall|i: int| 0 <= i < r@.len() ==> self.view(st@).dom().contains(
                (#[trigger] r@[i]).0,
            ) && r@[i].1 == self.view(st@)[r@[i].0],
            forall|i: int, j: int| 0 <= i < j < r@.len() ==> (#[trigger] r@[i]).0 < (
            #[trigger] r@[j]).0,
            forall|x: u64| #[trigger] self.view(st@).dom().contains(x) ==> exists|i: int|
                0 <= i < r@.len() && (#[trigger] r@[i]).0 == x,
            r@.len() == self.spec_len(),
    {
        let cursor = Cursor::asc(self, st);
        let r = self.collect(st, cursor);
        proof {
            assert forall|x: u64| #[trigger] self.view(st@).dom().contains(x) implies exists|
                i: int,
            | 0 <= i < r@.len() && (#[trigger] r@[i]).0 == x by {
                assert(in_bounds(x, Bound::Unbounded, Bound::Unbounded));
            }
            self.lemma_emitted_count(st@, r@);
        }
        r
    }

    /// An ordered, complete, duplicate-free listing of the entries has
    /// exactly as many items as the arena has nodes.
    proof fn lemma_emitted_count(self, m: Map<Seq<u8>, Seq<u8>>, entries: Seq<(u64, u64)>)
        requires
            self.inv(m),
            forall|i: int| 0 <= i < entries.len() ==> self.view(m).dom().contains(
                (#[trigger] entries[i]).0,
            ),
            forall|i: int, j: int|
                0 <= i < j < entries.len() ==> (#[trigger] entries[i]).0 != (
                #[trigger] entries[j]).0,
            forall|x: u64| #[trigger] self.view(m).dom().contains(x) ==> exists|i: int|
                0 <= i < entries.len() && (#[trigger] entries[i]).0 == x,
        ensures
            entries.len() == self.spec_len(),
    {
        let ks = entries.map_values(|e: (u64, u64)| e.0);
        assert(ks.no_duplicates()) by {
            assert forall|i: int, j: int|
                0 <= i < ks.len() && 0 <= j < ks.len() && i != j implies ks[i] != ks[j] by {
                if i < j {
                    assert(entries[i].0 != entries[j].0);
                } else {
                    assert(entries[j].0 != entries[i].0);
                }
            }
        }
        ks.unique_seq_to_set();
        assert(ks.to_set() =~= self.view(m).dom()) by {
            assert forall|x: u64| #[trigger] ks.to_set().contains(x) implies self.view(
                m,
            ).dom().contains(x) by {
                let i = choose|i: int| 0 <= i < ks.len() && ks[i] == x;
                assert(entries[i].0 == x);
            }
            assert forall|x: u64| #[trigger] self.view(m).dom().contains(x) implies ks
                .to_set().contains(x) by {
                let i = choose|i: int| 0 <= i < entries.len() && (#[trigger] entries[i]).0 == x;
                assert(ks[i] == x);
            }
        }
        self.lemma_len_is_entry_count(m);
    }

    /// Collects the entries with keys strictly above `key`, ascending.
    pub fn iter_from(&self, st: &Store, key: u64) -> (r: Vec<(u64, u64)>)
        requires
            self.inv(st@),
        ensures
            forall|i: int| 0 <= i < r@.len() ==> self.view(st@).dom().contains(
                (#[trigger] r@[i]).0,
            ) && r@[i].1 == self.view(st@)[r@[i].0] && r@[i].0 > key,
            forall|i: int, j: int| 0 <= i < j < r@.len() ==> (#[trigger] r@[i]).0 < (
            #[trigger] r@[j]).0,
            forall|x: u64| #[trigger] self.view(st@).dom().contains(x) && x > key ==> exists|i: int|
                0 <= i < r@.len() && (#[trigger] r@[i]).0 == x,
    {
        let ghost view = self.view(st@);
        let cursor = Cursor::asc_from(self, st, key);
        let ghost start = cursor.spec_key();
        let r = self.collect(st, cursor);
        proof {
            assert forall|i: int| 0 <= i < r@.len() implies (#[trigger] r@[i]).0 > key by {
                if r@.len() > 0 {
                    assert(r@[0].0 >= start.unwrap());
                    if i > 0 {
                        assert(r@[0].0 < r@[i].0);
                    }
                }
            }
            assert forall|x: u64|
                #[trigger] self.view(st@).dom().contains(x) && x > key implies exists|i: int|
                0 <= i < r@.len() && (#[trigger] r@[i]).0 == x by {
                assert(in_bounds(x, Bound::Unbounded, Bound::Unbounded));
                assert(start is Some && x >= start.unwrap());
            }
        }
        r
    }

    /// Collects all entries in descending key order.
    pub fn iter_rev(&self, st: &Store) -> (r: Vec<(u64, u64)>)
        requires
            self.inv(st@),
        ensures
            forall|i: int| 0 <= i < r@.len() ==> self.view(st@).dom().contains(
                (#[trigger] r@[i]).0,
            ) && r@[i].1 == self.view(st@)[r@[i].0],
            forall|i: int, j: int| 0 <= i < j < r@.len() ==> (#[trigger] r@[i]).0 > (
            #[trigger] r@[j]).0,
            forall|x: u64| #[trigger] self.view(st@).dom().contains(x) ==> exists|i: int|
                0 <= i < r@.len() && (#[trigger] r@[i]).0 == x,
            r@.len() == self.spec_len(),
    {
        let cursor = Cursor::desc(self, st);
        let r = self.collect(st, cursor);
        proof {
            assert forall|x: u64| #[trigger] self.view(st@).dom().contains(x) implies exists|
                i: int,
            | 0 <= i < r@.len() && (#[trigger] r@[i]).0 == x by {
                assert(in_bounds(x, Bound::Unbounded, Bound::Unbounded));
            }
            self.lemma_emitted_count(st@, r@);
        }
        r
    }

    /// Collects the entries with keys strictly below `key`, descending.
    pub fn iter_rev_from(&self, st: &Store, key: u64) -> (r: Vec<(u64, u64)>)
        requires
            self.inv(st@),
        ensures
            forall|i: int| 0 <= i < r@.len() ==> self.view(st@).dom().contains(
                (#[trigger] r@[i]).0,
            ) && r@[i].1 == self.view(st@)[r@[i].0] && r@[i].0 < key,
            forall|i: int, j: int| 0 <= i < j < r@.len() ==> (#[trigger] r@[i]).0 > (
            #[trigger] r@[j]).0,
            forall|x: u64| #[trigger] self.view(st@).dom().contains(x) && x < key ==> exists|i: int|
                0 <= i < r@.len() && (#[trigger] r@[i]).0 == x,
    {
        let cursor = Cursor::desc_from(self, st, key);
        let ghost start = cursor.spec_key();
        let r = self.collect(st, cursor);
        proof {
            assert forall|i: int| 0 <= i < r@.len() implies (#[trigger] r@[i]).0 < key by {
                if r@.len() > 0 {
                    assert(r@[0].0 <= start.unwrap());
                    if i > 0 {
                        assert(r@[0].0 > r@[i].0);
                    }
                }
            }
            assert forall|x: u64|
                #[trigger] self.view(st@).dom().contains(x) && x < key implies exists|i: int|
                0 <= i < r@.len() && (#[trigger] r@[i]).0 == x by {
                assert(in_bounds(x, Bound::Unbounded, Bound::Unbounded));
                assert(start is Some && x <= start.unwrap());
            }
        }
        r
    }

    /// Collects the entries within the given bounds in ascending key order,
    /// or fails with `InvalidRange` when the bounds contradict each other:
    /// a lower bound above the upper bound, or two exclusive bounds on the
    /// same key.
    #[verifier::rlimit(100)]
    #[verifier::spinoff_prover]
    pub fn range(&self, st: &Store, lo: Bound, hi: Bound) -> (r: Result<Vec<(u64, u64)>, Error>)
        requires
            self.inv(st@),
        ensures
            r is Ok ==> (forall|i: int| 0 <= i < r.unwrap()@.len() ==> self.view(
                st@,
            ).dom().contains((#[trigger] r.unwrap()@[i]).0) && r.unwrap()@[i].1 == self.view(st@)[
                r.unwrap()@[i].0] && in_bounds(r.unwrap()@[i].0, lo, hi)),
            r is Ok ==> (forall|i: int, j: int|
                0 <= i < j < r.unwrap()@.len() ==> (#[trigger] r.unwrap()@[i]).0 < (
                #[trigger] r.unwrap()@[j]).0),
            r is Ok ==> (forall|x: u64|
                #[trigger] self.view(st@).dom().contains(x) && in_bounds(x, lo, hi)
                    ==> r.unwrap()@.map_values(|e: (u64, u64)| e.0).contains(x)),
            r is Err ==> (r matches Err(e) && e == Error::InvalidRange),
            r is Err <==> (match (lo, hi) {
                (Bound::Included(a), Bound::Included(b)) => a > b,
                (Bound::Included(a), Bound::Excluded(b)) => a > b,
                (Bound::Excluded(a), Bound::Included(b)) => a > b,
                (Bound::Excluded(a), Bound::Excluded(b)) => a >= b,
                _ => false,
            }),
    {
        let bad = match (&lo, &hi) {
            (Bound::Included(a), Bound::Included(b)) => *a > *b,
            (Bound::Included(a), Bound::Excluded(b)) => *a > *b,
            (Bound::Excluded(a), Bound::Included(b)) => *a > *b,
            (Bound::Excluded(a), Bound::Excluded(b)) => *a >= *b,
            _ => false,
        };
        if bad {
            return Err(Error::InvalidRange);
        }
        let cursor = Cursor::range(self, st, lo, hi);
        let ghost start = cursor.spec_key();
        let r = self.collect(st, cursor);
        proof {
            assert(cursor.spec_lo() == lo && cursor.spec_hi() == hi && cursor.spec_asc());
            assert forall|x: u64|
                #[trigger] self.view(st@).dom().contains(x) && in_bounds(x, lo, hi) implies exists|
                i: int,
            | 0 <= i < r@.len() && (#[trigger] r@[i]).0 == x by {
                assert(start is Some && x >= start.unwrap());
                assert(self.view(st@).dom().contains(x) && in_bounds(
                    x,
                    cursor.spec_lo(),
                    cursor.spec_hi(),
                ) && x >= start.unwrap());
            }
            assert forall|x: u64|
                #[trigger] self.view(st@).dom().contains(x) && in_bounds(x, lo, hi) implies r@
                .map_values(|e: (u64, u64)| e.0).contains(x) by {
                let i = choose|i: int| 0 <= i < r@.len() && (#[trigger] r@[i]).0 == x;
                assert(r@.map_values(|e: (u64, u64)| e.0)[i] == x);
            }
            assert(forall|i: int| 0 <= i < r@.len() ==> self.view(st@).dom().contains(
                (#[trigger] r@[i]).0,
            ) && r@[i].1 == self.view(st@)[r@[i].0] && in_bounds(r@[i].0, lo, hi));
            assert(forall|i: int, j: int| 0 <= i < j < r@.len() ==> (#[trigger] r@[i]).0 < (
            #[trigger] r@[j]).0);
        }
        Ok(r)
    }

    /// Copies all entries into a `Vec`, in ascending key order.
    pub fn to_vec(&self, st: &Store) -> (r: Vec<(u64, u64)>)
        requires
            self.inv(st@),
        ensures
            forall|i: int| 0 <= i < r@.len() ==> self.view(st@).dom().contains(
                (#[trigger] r@[i]).0,
            ) && r@[i].1 == self.view(st@)[r@[i].0],
            forall|i: int, j: int| 0 <= i < j < r@.len() ==> (#[trigger] r@[i]).0 < (
            #[trigger] r@[j]).0,
            forall|x: u64| #[trigger] self.view(st@).dom().contains(x) ==> exists|i: int|
                0 <= i < r@.len() && (#[trigger] r@[i]).0 == x,
            r@.len() == self.spec_len(),
    {
        self.iter(st)
    }

    /// The height of the tree: zero when empty, else the root node's height.
    pub fn height(&self, st: &Store) -> (r: u64)
        requires
            self.wf(st@),
        ensures
            self.spec_len() == 0 ==> r == 0,
            self.inv(st@) && self.spec_len() > 0 ==> r == ht_at(
                self.nodes_of(st@),
                self.spec_root() as int,
            ),
    {
        if self.tree.is_empty() {
            return 0;
        }
        match self.node(st, self.root) {
            Some(n) => n.ht,
            None => 0,
        }
    }

    // Walks the subtree at `i` validating its structure at run time: index
    // and identity fields, strict height decrease downward, exact heights,
    // balance, and key ordering.  On success it reports the subtree's least
    // key, greatest key and slot count; any violation yields `None`.  A
    // `Some` answer is proof-carrying: it implies the spec-level invariants.
    fn check_at(&self, st: &Store, i: u64) -> (r: Option<(u64, u64, u64)>)
        requires
            self.wf(st@),
        ensures
            r matches Some(t) ==> ({
                let ns = self.nodes_of(st@);
                &&& i < self.spec_len()
                &&& wf_at(ns, i as int)
                &&& bal_at(ns, i as int)
                &&& idxs_at(ns, i as int).finite()
                &&& idxs_at(ns, i as int).len() == t.2
                &&& (forall|k: u64| keys_at(ns, i as int).contains(k) ==> t.0 <= k <= t.1)
            }),
        decreases ht_at(self.nodes_of(st@), i as int),
    {
        let ghost ns = self.nodes_of(st@);
        let node = match self.node(st, i) {
            Some(n) => n,
            None => {
                return None;
            },
        };
        let mut mn = node.key;
        let mut mx = node.key;
        let mut lht: u64 = 0;
        let mut rht: u64 = 0;
        let mut lsz: u64 = 0;
        let mut rsz: u64 = 0;
        match node.lft {
            Some(l) => {
                let child_ok = match self.node(st, l) {
                    Some(c) => c.ht < node.ht,
                    None => false,
                };
                if !child_ok {
                    return None;
                }
                match self.check_at(st, l) {
                    Some(t) => {
                        if !(t.1 < node.key) {
                            return None;
                        }
                        mn = t.0;
                        lht = match self.node(st, l) {
                            Some(c) => c.ht,
                            None => 0,
                        };
                        lsz = t.2;
                    },
                    None => {
                        return None;
                    },
                }
            },
            None => {},
        }
        match node.rgt {
            Some(rr) => {
                let child_ok = match self.node(st, rr) {
                    Some(c) => c.ht < node.ht,
                    None => false,
                };
                if !child_ok {
                    return None;
                }
                match self.check_at(st, rr) {
                    Some(t) => {
                        if !(t.0 > node.key) {
                            return None;
                        }
                        mx = t.1;
                        rht = match self.node(st, rr) {
                            Some(c) => c.ht,
                            None => 0,
                        };
                        rsz = t.2;
                    },
                    None => {
                        return None;
                    },
                }
            },
            None => {},
        }
        let top = if lht >= rht {
            lht
        } else {
            rht
        };
        if top == u64::MAX || node.ht != top + 1 {
            return None;
        }
        let diff_ok = if lht >= rht {
            lht - rht <= 1
        } else {
            rht - lht <= 1
        };
        if !diff_ok {
            return None;
        }
        if rsz > u64::MAX - 1 {
            return None;
        }
        if lsz > u64::MAX - 1 - rsz {
            return None;
        }
        let size = 1 + lsz + rsz;
        proof {
            assert(wf_at(ns, i as int)) by {
                match node.lft {
                    Some(l) => {
                        assert forall|k: u64| keys_at(ns, l as int).contains(k) implies k
                            < node.key by {}
                    },
                    None => {},
                }
                match node.rgt {
                    Some(rr) => {
                        assert forall|k: u64| keys_at(ns, rr as int).contains(k) implies k
                            > node.key by {}
                    },
                    None => {},
                }
            }
            assert(bal_at(ns, i as int));
            lemma_subtree_disjoint(ns, i as int);
            lemma_members(ns, i as int);
            let il = match node.lft {
                Some(l) => idxs_at(ns, l as int),
                None => Set::<int>::empty(),
            };
            let ir = match node.rgt {
                Some(rr) => idxs_at(ns, rr as int),
                None => Set::<int>::empty(),
            };
            crate::tree_spec::lemma_disjoint_union_len(il, ir);
            assert(!il.union(ir).contains(i as int));
            assert(idxs_at(ns, i as int) =~= il.union(ir).insert(i as int));
            assert(idxs_at(ns, i as int).len() == il.union(ir).len() + 1);
            match node.lft {
                Some(l) => {
                    lemma_members(ns, l as int);
                    assert(keys_at(ns, l as int).contains(ns[l as int].key));
                    assert(mn <= ns[l as int].key);
                    assert(mn <= node.key);
                },
                None => {
                    assert(mn == node.key);
                },
            }
            match node.rgt {
                Some(rr) => {
                    lemma_members(ns, rr as int);
                    assert(keys_at(ns, rr as int).contains(ns[rr as int].key));
                    assert(mx >= ns[rr as int].key);
                    assert(mx >= node.key);
                },
                None => {
                    assert(mx == node.key);
                },
            }
            assert forall|k: u64| keys_at(ns, i as int).contains(k) implies mn <= k <= mx by {
                if k != node.key {
                    match node.lft {
                        Some(l) => {
                            if keys_at(ns, l as int).contains(k) {
                                assert(mn <= k);
                                assert(k < node.key);
                            }
                        },
                        None => {},
                    }
                    match node.rgt {
                        Some(rr) => {
                            if keys_at(ns, rr as int).contains(k) {
                                assert(k <= mx);
                                assert(k > node.key);
                            }
                        },
                        None => {},
                    }
                }
            }
        }
        Some((mn, mx, size))
    }

    /// Validates the structural invariant at run time: the arena holds one
    /// well-formed, height-exact, balanced search tree whose slots are
    /// exactly `0 .. len`, and every tree key has a stored value.  A `true`
    /// answer is proof-carrying — it implies those spec-level facts outright,
    /// and implies the full (closed) invariant for any caller that also
    /// knows every stored key belongs to the tree (the one direction no walk
    /// of the non-enumerable value region can test).
    pub fn check_invariants(&self, st: &Store) -> (r: bool)
        requires
            self.wf(st@),
        ensures
            r ==> ({
                let ns = self.nodes_of(st@);
                let root = self.spec_root() as int;
                &&& (self.spec_len() == 0 ==> self.spec_root() == 0)
                &&& self.spec_len() > 0 ==> {
                    &&& self.spec_root() < self.spec_len()
                    &&& wf_at(ns, root)
                    &&& bal_at(ns, root)
                    &&& idxs_at(ns, root) == set_int_range(0, self.spec_len() as int)
                    &&& (forall|k: u64| keys_at(ns, root).contains(k) ==> self.view(
                        st@,
                    ).dom().contains(k))
                }
            }),
            r && (forall|k: u64|
                self.view(st@).dom().contains(k) ==> self.spec_len() > 0 && keys_at(
                    self.nodes_of(st@),
                    self.spec_root() as int,
                ).contains(k)) ==> self.inv(st@),
    {
        let len = self.tree.len();
        if len == 0 {
            proof {
                if forall|k: u64|
                    self.view(st@).dom().contains(k) ==> self.spec_len() > 0 && keys_at(
                        self.nodes_of(st@),
                        self.spec_root() as int,
                    ).contains(k) {
                    assert(self.view(st@).dom() =~= Set::<u64>::empty());
                }
            }
            return self.root == 0;
        }
        if self.root >= len {
            return false;
        }
        match self.check_at(st, self.root) {
            Some(t) => {
                if t.2 != len {
                    return false;
                }
                proof {
                    let ns = self.nodes_of(st@);
                    let root = self.spec_root() as int;
                    let s = idxs_at(ns, root);
                    let full = set_int_range(0, self.spec_len() as int);
                    lemma_members(ns, root);
                    vstd::set_lib::lemma_int_range(0, self.spec_len() as int);
                    assert forall|x: int| full.contains(x) implies s.contains(x) by {
                        if !s.contains(x) {
                            assert(s.subset_of(full.remove(x)));
                            assert(full.remove(x).len() == full.len() - 1);
                            vstd::set_lib::lemma_len_subset(s, full.remove(x));
                        }
                    }
                    assert(s =~= full);
                }
                // every key the tree indexes must have a stored value
                let mut i: u64 = 0;
                while i < len
                    invariant
                        self.wf(st@),
                        len == self.spec_len(),
                        i <= len,
                        forall|j: int| 0 <= j < i ==> self.view(st@).dom().contains(
                            (#[trigger] self.nodes_of(st@)[j]).key,
                        ),
                    decreases len - i,
                {
                    let node_key = match self.node(st, i) {
                        Some(n) => n.key,
                        None => 0,
                    };
                    if !self.contains_key(st, node_key) {
                        return false;
                    }
                    i = i + 1;
                }
                proof {
                    let ns = self.nodes_of(st@);
                    let root = self.spec_root() as int;
                    assert forall|k: u64| keys_at(ns, root).contains(k) implies self.view(
                        st@,
                    ).dom().contains(k) by {
                        lemma_members(ns, root);
                        let j = choose|j: int| idxs_at(ns, root).contains(j) && ns[j].key == k;
                        assert(set_int_range(0, self.spec_len() as int).contains(j));
                        assert(self.view(st@).dom().contains(ns[j].key));
                    }
                    if forall|k: u64|
                        self.view(st@).dom().contains(k) ==> self.spec_len() > 0 && keys_at(
                            self.nodes_of(st@),
                            self.spec_root() as int,
                        ).contains(k) {
                        assert(keys_at(ns, root) =~= self.view(st@).dom());
                    }
                }
                true
            },
            None => false,
        }
    }

    /// Returns `true` if the map holds an entry for `key`.
    pub fn contains_key(&self, st: &Store, key: u64) -> (r: bool)
        ensures
            r == self.view(st@).contains_key(key),
    {
        self.val.contains_key(st, key)
    }

    /// Inserts `key` with `value`, returning the value it displaced, if any.
    ///
    /// A new key grows the tree by one node and rebalances the insertion
    /// path; overwriting an existing key touches only the value region.
    pub fn insert(&mut self, st: &mut Store, key: u64, value: u64) -> (r: Option<u64>)
        requires
            old(self).inv(old(st)@),
            old(self).spec_len() < u64::MAX - 2,
        ensures
            final(self).inv(final(st)@),
            final(self).wf(final(st)@),
            final(self).val_prefix() == old(self).val_prefix(),
            final(self).node_prefix() == old(self).node_prefix(),
            final(self).view(final(st)@) == old(self).view(old(st)@).insert(key, value),
            agree_outside_two(
                old(st)@,
                final(st)@,
                old(self).val_prefix(),
                old(self).node_prefix(),
            ),
            r == if old(self).view(old(st)@).contains_key(key) {
                Some(old(self).view(old(st)@)[key])
            } else {
                None::<u64>
            },
            final(self).spec_len() == if old(self).view(old(st)@).contains_key(key) {
                old(self).spec_len() as int
            } else {
                old(self).spec_len() + 1
            },
            old(self).view(old(st)@).contains_key(key) ==> final(self).nodes_of(final(st)@) == old(
                self,
            ).nodes_of(old(st)@) && final(self).spec_root() == old(self).spec_root()
                && crate::keys::agree_on_region(old(st)@, final(st)@, old(self).node_prefix()),
    {
        let ghost m0 = st@;
        let ghost me0 = *self;
        let ghost ns0 = self.nodes_of(st@);
        if !self.contains_key(st, key) {
            proof {
                if self.spec_len() > 0 {
                    assert(wf_at(ns0, self.spec_root() as int));
                    assert(!keys_at(ns0, self.spec_root() as int).contains(key));
                    lemma_ht_le_size(ns0, self.spec_root() as int);
                    vstd::set_lib::lemma_int_range(0, self.spec_len() as int);
                    assert(ht_at(ns0, self.spec_root() as int) <= self.spec_len());
                }
            }
            let len = self.tree.len();
            let root = self.root;
            let new_root = self.insert_at(st, root, len, key);
            self.root = new_root;
            proof {
                let ns1 = self.nodes_of(st@);
                let m1 = st@;
                if me0.spec_len() == 0 {
                    assert(idxs_at(ns1, new_root as int) =~= set_int_range(
                        0,
                        self.spec_len() as int,
                    ));
                    assert(keys_at(ns1, new_root as int) =~= me0.view(m0).dom().insert(key));
                } else {
                    assert(idxs_at(ns1, new_root as int) =~= set_int_range(
                        0,
                        self.spec_len() as int,
                    ));
                    assert(keys_at(ns1, new_root as int) =~= me0.view(m0).dom().insert(key));
                }
            }
        }
        let ghost mid = st@;
        let ghost me1 = *self;
        let r = self.val.insert(st, key, value);
        proof {
            let m2 = st@;
            me1.lemma_node_region_stable(mid, m2);
            assert(self.view(m2) == me0.view(m0).insert(key, value));
            assert(self.view(m2).dom() =~= me0.view(m0).dom().insert(key));
            if me0.view(m0).contains_key(key) {
                crate::keys::lemma_agreement_crosses_regions(
                    mid,
                    m2,
                    me0.val_prefix(),
                    me0.node_prefix(),
                );
                assert(crate::keys::agree_on_region(m0, m2, me0.node_prefix()));
                assert(self.view(m2).dom() =~= me0.view(m0).dom());
                if me0.spec_len() > 0 {
                    assert(keys_at(self.nodes_of(m2), self.spec_root() as int) == keys_at(
                        ns0,
                        self.spec_root() as int,
                    ));
                }
                if me0.spec_len() == 0 {
                    assert(me0.view(m0).dom().contains(key));
                    assert(false);
                }
            } else {
                assert(keys_at(self.nodes_of(m2), self.spec_root() as int) == self.view(
                    m2,
                ).dom());
            }
            assert(self.inv(m2));
            assert forall|k: Seq<u8>|
                !me0.val_prefix().is_prefix_of(k) && !me0.node_prefix().is_prefix_of(k) implies (
            #[trigger] m0.contains_key(k)) == m2.contains_key(k) && (m0.contains_key(k) ==> m0[k]
                == m2[k]) by {
                assert(m0.contains_key(k) == mid.contains_key(k));
                assert(mid.contains_key(k) == m2.contains_key(k));
                if m0.contains_key(k) {
                    assert(m0[k] == mid[k]);
                    assert(mid[k] == m2[k]);
                }
            }
        }
        r
    }

    // Returns the minimum node of the subtree at `at` together with its
    // parent; if the minimum is `at` itself, the node at `p` is handed back
    // as the parent.
    fn min_at(&self, st: &Store, at: u64, p: u64) -> (r: Option<(Node, Node)>)
        requires
            self.wf(st@),
            p < self.spec_len(),
            at < self.spec_len(),
            wf_at(self.nodes_of(st@), at as int),
        ensures
            ({
                let ns = self.nodes_of(st@);
                match r {
                    Some(pair) => {
                        &&& pair.0.id < self.spec_len()
                        &&& pair.0 == ns[pair.0.id as int]
                        &&& idxs_at(ns, at as int).contains(pair.0.id as int)
                        &&& pair.0.lft is None
                        &&& keys_at(ns, at as int).contains(pair.0.key)
                        &&& (forall|k: u64| keys_at(ns, at as int).contains(k) ==> pair.0.key <= k)
                        &&& (pair.0.id == at ==> pair.1 == ns[p as int])
                        &&& (pair.0.id != at ==> pair.1.id < self.spec_len() && pair.1
                            == ns[pair.1.id as int] && pair.1.lft == Some(pair.0.id) && idxs_at(
                            ns,
                            at as int,
                        ).contains(pair.1.id as int))
                    },
                    None => false,
                }
            }),
    {
        let ghost ns = self.nodes_of(st@);
        let ghost at0 = at;
        let mut cur = at;
        let mut parent = match self.node(st, p) {
            Some(x) => x,
            None => Node::of(0, 0),
        };
        proof {
            lemma_members(ns, at0 as int);
        }
        loop
            invariant
                self.wf(st@),
                ns == self.nodes_of(st@),
                at0 == at,
                at0 < self.spec_len(),
                cur < self.spec_len(),
                wf_at(ns, at0 as int),
                wf_at(ns, cur as int),
                idxs_at(ns, at0 as int).contains(cur as int),
                forall|j: int| #[trigger] idxs_at(ns, cur as int).contains(j) ==> idxs_at(
                    ns,
                    at0 as int,
                ).contains(j),
                forall|x: u64| #[trigger] keys_at(ns, cur as int).contains(x) ==> keys_at(
                    ns,
                    at0 as int,
                ).contains(x),
                forall|k: u64|
                    keys_at(ns, at0 as int).contains(k) && !keys_at(ns, cur as int).contains(k)
                        ==> (forall|k2: u64| keys_at(ns, cur as int).contains(k2) ==> k2 < k),
                cur == at0 ==> parent == ns[p as int],
                cur != at0 ==> parent.id < self.spec_len() && parent == ns[parent.id as int]
                    && parent.lft == Some(cur) && idxs_at(ns, at0 as int).contains(
                    parent.id as int,
                ),
            decreases ht_at(ns, cur as int),
        {
            let node = match self.node(st, cur) {
                Some(x) => x,
                None => Node::of(0, 0),
            };
            proof {
                lemma_members(ns, cur as int);
                lemma_members(ns, at0 as int);
            }
            match node.lft {
                Some(lft) => {
                    proof {
                        assert(wf_at(ns, lft as int));
                        lemma_members(ns, lft as int);
                        assert(idxs_at(ns, cur as int).contains(lft as int));
                        assert forall|j: int| #[trigger] idxs_at(ns, lft as int).contains(j)
                            implies idxs_at(ns, at0 as int).contains(j) by {
                            assert(idxs_at(ns, cur as int).contains(j));
                        }
                        assert(ht_at(ns, lft as int) < ht_at(ns, cur as int));
                        assert(ns[cur as int].ht <= ns[at0 as int].ht);
                        assert(lft != at0);
                        assert forall|x: u64| #[trigger] keys_at(ns, lft as int).contains(x)
                            implies keys_at(ns, at0 as int).contains(x) by {
                            assert(keys_at(ns, cur as int).contains(x));
                        }
                        assert forall|k: u64|
                            keys_at(ns, at0 as int).contains(k) && !keys_at(
                                ns,
                                lft as int,
                            ).contains(k) implies (forall|k2: u64|
                            keys_at(ns, lft as int).contains(k2) ==> k2 < k) by {
                            if keys_at(ns, cur as int).contains(k) {
                                assert forall|k2: u64|
                                    keys_at(ns, lft as int).contains(k2) implies k2 < k by {
                                    assert(k2 < node.key);
                                    if k != node.key {
                                        match node.rgt {
                                            Some(rgt) => {
                                                if keys_at(ns, rgt as int).contains(k) {
                                                    assert(k > node.key);
                                                }
                                            },
                                            None => {},
                                        }
                                    }
                                }
                            }
                        }
                    }
                    parent = node;
                    cur = lft;
                },
                None => {
                    proof {
                        assert forall|k: u64| keys_at(ns, at0 as int).contains(k) implies node.key
                            <= k by {
                            if keys_at(ns, cur as int).contains(k) {
                                if k != node.key {
                                    match node.rgt {
                                        Some(rgt) => {
                                            assert(keys_at(ns, rgt as int).contains(k));
                                        },
                                        None => {},
                                    }
                                }
                            } else {
                                assert(keys_at(ns, cur as int).contains(node.key));
                            }
                        }
                        assert(keys_at(ns, cur as int).contains(node.key));
                        assert(node.id == cur);
                        assert(keys_at(ns, at0 as int).contains(node.key));
                    }
                    return Some((node, parent));
                },
            }
        }
    }

    // Returns the maximum node of the subtree at `at` together with its
    // parent, mirroring `min_at`.
    fn max_at(&self, st: &Store, at: u64, p: u64) -> (r: Option<(Node, Node)>)
        requires
            self.wf(st@),
            p < self.spec_len(),
            at < self.spec_len(),
            wf_at(self.nodes_of(st@), at as int),
        ensures
            ({
                let ns = self.nodes_of(st@);
                match r {
                    Some(pair) => {
                        &&& pair.0.id < self.spec_len()
                        &&& pair.0 == ns[pair.0.id as int]
                        &&& idxs_at(ns, at as int).contains(pair.0.id as int)
                        &&& pair.0.rgt is None
                        &&& keys_at(ns, at as int).contains(pair.0.key)
                        &&& (forall|k: u64| keys_at(ns, at as int).contains(k) ==> pair.0.key >= k)
                        &&& (pair.0.id == at ==> pair.1 == ns[p as int])
                        &&& (pair.0.id != at ==> pair.1.id < self.spec_len() && pair.1
                            == ns[pair.1.id as int] && pair.1.rgt == Some(pair.0.id) && idxs_at(
                            ns,
                            at as int,
                        ).contains(pair.1.id as int))
                    },
                    None => false,
                }
            }),
    {
        let ghost ns = self.nodes_of(st@);
        let ghost at0 = at;
        let mut cur = at;
        let mut parent = match self.node(st, p) {
            Some(x) => x,
            None => Node::of(0, 0),
        };
        proof {
            lemma_members(ns, at0 as int);
        }
        loop
            invariant
                self.wf(st@),
                ns == self.nodes_of(st@),
                at0 == at,
                at0 < self.spec_len(),
                cur < self.spec_len(),
                wf_at(ns, at0 as int),
                wf_at(ns, cur as int),
                idxs_at(ns, at0 as int).contains(cur as int),
                forall|j: int| #[trigger] idxs_at(ns, cur as int).contains(j) ==> idxs_at(
                    ns,
                    at0 as int,
                ).contains(j),
                forall|x: u64| #[trigger] keys_at(ns, cur as int).contains(x) ==> keys_at(
                    ns,
                    at0 as int,
                ).contains(x),
                forall|k: u64|
                    keys_at(ns, at0 as int).contains(k) && !keys_at(ns, cur as int).contains(k)
                        ==> (forall|k2: u64| keys_at(ns, cur as int).contains(k2) ==> k2 > k),
                cur == at0 ==> parent == ns[p as int],
                cur != at0 ==> parent.id < self.spec_len() && parent == ns[parent.id as int]
                    && parent.rgt == Some(cur) && idxs_at(ns, at0 as int).contains(
                    parent.id as int,
                ),
            decreases ht_at(ns, cur as int),
        {
            let node = match self.node(st, cur) {
                Some(x) => x,
                None => Node::of(0, 0),
            };
            proof {
                lemma_members(ns, cur as int);
                lemma_members(ns, at0 as int);
            }
            match node.rgt {
                Some(rgt) => {
                    proof {
                        assert(wf_at(ns, rgt as int));
                        lemma_members(ns, rgt as int);
                        assert(idxs_at(ns, cur as int).contains(rgt as int));
                        assert forall|j: int| #[trigger] idxs_at(ns, rgt as int).contains(j)
                            implies idxs_at(ns, at0 as int).contains(j) by {
                            assert(idxs_at(ns, cur as int).contains(j));
                        }
                        assert(ht_at(ns, rgt as int) < ht_at(ns, cur as int));
                        assert(ns[cur as int].ht <= ns[at0 as int].ht);
                        assert(rgt != at0);
                        assert forall|x: u64| #[trigger] keys_at(ns, rgt as int).contains(x)
                            implies keys_at(ns, at0 as int).contains(x) by {
                            assert(keys_at(ns, cur as int).contains(x));
                        }
                        assert forall|k: u64|
                            keys_at(ns, at0 as int).contains(k) && !keys_at(
                                ns,
                                rgt as int,
                            ).contains(k) implies (forall|k2: u64|
                            keys_at(ns, rgt as int).contains(k2) ==> k2 > k) by {
                            if keys_at(ns, cur as int).contains(k) {
                                assert forall|k2: u64|
                                    keys_at(ns, rgt as int).contains(k2) implies k2 > k by {
                                    assert(k2 > node.key);
                                    if k != node.key {
                                        match node.lft {
                                            Some(lft) => {
                                                if keys_at(ns, lft as int).contains(k) {
                                                    assert(k < node.key);
                                                }
                                            },
                                            None => {},
                                        }
                                    }
                                }
                            }
                        }
                    }
                    parent = node;
                    cur = rgt;
                },
                None => {
                    proof {
                        assert forall|k: u64| keys_at(ns, at0 as int).contains(k) implies node.key
                            >= k by {
                            if keys_at(ns, cur as int).contains(k) {
                                if k != node.key {
                                    match node.lft {
                                        Some(lft) => {
                                            assert(keys_at(ns, lft as int).contains(k));
                                        },
                                        None => {},
                                    }
                                }
                            } else {
                                assert(keys_at(ns, cur as int).contains(node.key));
                            }
                        }
                        assert(keys_at(ns, cur as int).contains(node.key));
                        assert(node.id == cur);
                        assert(keys_at(ns, at0 as int).contains(node.key));
                    }
                    return Some((node, parent));
                },
            }
        }
    }

    // Finds the least key strictly above `key` in the subtree at `at`.
    fn above_at(&self, st: &Store, at: u64, key: u64) -> (r: Option<u64>)
        requires
            self.wf(st@),
            at < self.spec_len(),
            wf_at(self.nodes_of(st@), at as int),
        ensures
            ({
                let ns = self.nodes_of(st@);
                match r {
                    Some(k) => keys_at(ns, at as int).contains(k) && k > key && (forall|x: u64|
                        keys_at(ns, at as int).contains(x) && x > key ==> k <= x),
                    None => forall|x: u64| keys_at(ns, at as int).contains(x) ==> x <= key,
                }
            }),
    {
        let ghost ns = self.nodes_of(st@);
        let ghost at0 = at;
        let mut at = at;
        let mut seen: Option<u64> = None;
        let mut live = true;
        while live
            invariant
                self.wf(st@),
                ns == self.nodes_of(st@),
                at0 < self.spec_len(),
                live ==> at < self.spec_len() && wf_at(ns, at as int),
                live ==> forall|x: u64| #[trigger] keys_at(ns, at as int).contains(x) ==> keys_at(
                    ns,
                    at0 as int,
                ).contains(x),
                match seen {
                    Some(s) => keys_at(ns, at0 as int).contains(s) && s > key && (live
                        ==> forall|x: u64| keys_at(ns, at as int).contains(x) ==> x < s),
                    None => true,
                },
                forall|x: u64|
                    keys_at(ns, at0 as int).contains(x) && x > key ==> (live && keys_at(
                        ns,
                        at as int,
                    ).contains(x)) || (seen is Some && seen.unwrap() <= x),
            decreases (if live {
                ht_at(ns, at as int) + 1
            } else {
                0
            }),
        {
            let node = match self.node(st, at) {
                Some(x) => x,
                None => Node::of(0, 0),
            };
            let ghost cur = at;
            let ghost seen0 = seen;
            proof {
                lemma_members(ns, at as int);
                assert(keys_at(ns, cur as int).contains(node.key));
            }
            if node.key <= key {
                match node.rgt {
                    Some(rgt) => {
                        proof {
                            assert(wf_at(ns, rgt as int));
                            assert forall|x: u64| #[trigger] keys_at(ns, rgt as int).contains(x)
                                implies keys_at(ns, cur as int).contains(x) by {}
                            assert forall|x: u64|
                                keys_at(ns, at0 as int).contains(x) && x > key && !(keys_at(
                                    ns,
                                    rgt as int,
                                ).contains(x)) implies seen is Some && seen.unwrap() <= x by {
                                if keys_at(ns, cur as int).contains(x) {
                                    if x != node.key {
                                        match node.lft {
                                            Some(lft) => {
                                                if keys_at(ns, lft as int).contains(x) {
                                                    assert(x < node.key);
                                                }
                                            },
                                            None => {},
                                        }
                                    }
                                }
                            }
                        }
                        at = rgt;
                    },
                    None => {
                        proof {
                            assert forall|x: u64|
                                keys_at(ns, at0 as int).contains(x) && x > key implies seen is Some
                                && seen.unwrap() <= x by {
                                if keys_at(ns, cur as int).contains(x) {
                                    if x != node.key {
                                        match node.lft {
                                            Some(lft) => {
                                                if keys_at(ns, lft as int).contains(x) {
                                                    assert(x < node.key);
                                                }
                                            },
                                            None => {},
                                        }
                                    }
                                }
                            }
                        }
                        live = false;
                    },
                }
            } else {
                seen = Some(node.key);
                match node.lft {
                    Some(lft) => {
                        proof {
                            assert(wf_at(ns, lft as int));
                            assert forall|x: u64| #[trigger] keys_at(ns, lft as int).contains(x)
                                implies keys_at(ns, cur as int).contains(x) && x < node.key by {}
                            assert forall|x: u64|
                                keys_at(ns, at0 as int).contains(x) && x > key && !(keys_at(
                                    ns,
                                    lft as int,
                                ).contains(x)) implies node.key <= x by {
                                if keys_at(ns, cur as int).contains(x) {
                                    if x != node.key {
                                        match node.rgt {
                                            Some(rgt) => {
                                                if keys_at(ns, rgt as int).contains(x) {
                                                    assert(x > node.key);
                                                }
                                            },
                                            None => {},
                                        }
                                    }
                                } else {
                                    match seen0 {
                                        Some(s) => {
                                            assert(node.key < s);
                                        },
                                        None => {},
                                    }
                                }
                            }
                        }
                        at = lft;
                    },
                    None => {
                        proof {
                            assert forall|x: u64|
                                keys_at(ns, at0 as int).contains(x) && x > key implies node.key
                                <= x by {
                                if keys_at(ns, cur as int).contains(x) {
                                    if x != node.key {
                                        match node.rgt {
                                            Some(rgt) => {
                                                if keys_at(ns, rgt as int).contains(x) {
                                                    assert(x > node.key);
                                                }
                                            },
                                            None => {},
                                        }
                                    }
                                } else {
                                    match seen0 {
                                        Some(s) => {
                                            assert(node.key < s);
                                        },
                                        None => {},
                                    }
                                }
                            }
                        }
                        live = false;
                    },
                }
            }
        }
        seen
    }

    // Finds the greatest key strictly below `key` in the subtree at `at`.
    fn below_at(&self, st: &Store, at: u64, key: u64) -> (r: Option<u64>)
        requires
            self.wf(st@),
            at < self.spec_len(),
            wf_at(self.nodes_of(st@), at as int),
        ensures
            ({
                let ns = self.nodes_of(st@);
                match r {
                    Some(k) => keys_at(ns, at as int).contains(k) && k < key && (forall|x: u64|
                        keys_at(ns, at as int).contains(x) && x < key ==> k >= x),
                    None => forall|x: u64| keys_at(ns, at as int).contains(x) ==> x >= key,
                }
            }),
    {
        let ghost ns = self.nodes_of(st@);
        let ghost at0 = at;
        let mut at = at;
        let mut seen: Option<u64> = None;
        let mut live = true;
        while live
            invariant
                self.wf(st@),
                ns == self.nodes_of(st@),
                at0 < self.spec_len(),
                live ==> at < self.spec_len() && wf_at(ns, at as int),
                live ==> forall|x: u64| #[trigger] keys_at(ns, at as int).contains(x) ==> keys_at(
                    ns,
                    at0 as int,
                ).contains(x),
                match seen {
                    Some(s) => keys_at(ns, at0 as int).contains(s) && s < key && (live
                        ==> forall|x: u64| keys_at(ns, at as int).contains(x) ==> x > s),
                    None => true,
                },
                forall|x: u64|
                    keys_at(ns, at0 as int).contains(x) && x < key ==> (live && keys_at(
                        ns,
                        at as int,
                    ).contains(x)) || (seen is Some && seen.unwrap() >= x),
            decreases (if live {
                ht_at(ns, at as int) + 1
            } else {
                0
            }),
        {
            let node = match self.node(st, at) {
                Some(x) => x,
                None => Node::of(0, 0),
            };
            let ghost cur = at;
            let ghost seen0 = seen;
            proof {
                lemma_members(ns, at as int);
                assert(keys_at(ns, cur as int).contains(node.key));
            }
            if node.key < key {
                seen = Some(node.key);
                match node.rgt {
                    Some(rgt) => {
                        proof {
                            assert(wf_at(ns, rgt as int));
                            assert forall|x: u64| #[trigger] keys_at(ns, rgt as int).contains(x)
                                implies keys_at(ns, cur as int).contains(x) && x > node.key by {}
                            assert forall|x: u64|
                                keys_at(ns, at0 as int).contains(x) && x < key && !(keys_at(
                                    ns,
                                    rgt as int,
                                ).contains(x)) implies node.key >= x by {
                                if keys_at(ns, cur as int).contains(x) {
                                    if x != node.key {
                                        match node.lft {
                                            Some(lft) => {
                                                if keys_at(ns, lft as int).contains(x) {
                                                    assert(x < node.key);
                                                }
                                            },
                                            None => {},
                                        }
                                    }
                                } else {
                                    match seen0 {
                                        Some(s) => {
                                            assert(node.key > s);
                                        },
                                        None => {},
                                    }
                                }
                            }
                        }
                        at = rgt;
                    },
                    None => {
                        proof {
                            assert forall|x: u64|
                                keys_at(ns, at0 as int).contains(x) && x < key implies node.key
                                >= x by {
                                if keys_at(ns, cur as int).contains(x) {
                                    if x != node.key {
                                        match node.lft {
                                            Some(lft) => {
                                                if keys_at(ns, lft as int).contains(x) {
                                                    assert(x < node.key);
                                                }
                                            },
                                            None => {},
                                        }
                                    }
                                } else {
                                    match seen0 {
                                        Some(s) => {
                                            assert(node.key > s);
                                        },
                                        None => {},
                                    }
                                }
                            }
                        }
                        live = false;
                    },
                }
            } else {
                match node.lft {
                    Some(lft) => {
                        proof {
                            assert(wf_at(ns, lft as int));
                            assert forall|x: u64| #[trigger] keys_at(ns, lft as int).contains(x)
                                implies keys_at(ns, cur as int).contains(x) by {}
                            assert forall|x: u64|
                                keys_at(ns, at0 as int).contains(x) && x < key && !(keys_at(
                                    ns,
                                    lft as int,
                                ).contains(x)) implies seen is Some && seen.unwrap() >= x by {
                                if keys_at(ns, cur as int).contains(x) {
                                    if x != node.key {
                                        match node.rgt {
                                            Some(rgt) => {
                                                if keys_at(ns, rgt as int).contains(x) {
                                                    assert(x > node.key);
                                                }
                                            },
                                            None => {},
                                        }
                                    }
                                }
                            }
                        }
                        at = lft;
                    },
                    None => {
                        proof {
                            assert forall|x: u64|
                                keys_at(ns, at0 as int).contains(x) && x < key implies seen is Some
                                && seen.unwrap() >= x by {
                                if keys_at(ns, cur as int).contains(x) {
                                    if x != node.key {
                                        match node.rgt {
                                            Some(rgt) => {
                                                if keys_at(ns, rgt as int).contains(x) {
                                                    assert(x > node.key);
                                                }
                                            },
                                            None => {},
                                        }
                                    }
                                }
                            }
                        }
                        live = false;
                    },
                }
            }
        }
        seen
    }

    /// Returns the smallest stored key, or `None` if the map is empty.
    pub fn min(&self, st: &Store) -> (r: Option<u64>)
        requires
            self.inv(st@),
        ensures
            match r {
                Some(k) => self.view(st@).dom().contains(k) && (forall|x: u64|
                    self.view(st@).dom().contains(x) ==> k <= x),
                None => self.view(st@).dom() == Set::<u64>::empty(),
            },
    {
        if self.tree.is_empty() {
            proof {
                assert(self.view(st@).dom() =~= Set::<u64>::empty());
            }
            return None;
        }
        match self.min_at(st, self.root, self.root) {
            Some(pair) => Some(pair.0.key),
            None => None,
        }
    }

    /// Returns the largest stored key, or `None` if the map is empty.
    pub fn max(&self, st: &Store) -> (r: Option<u64>)
        requires
            self.inv(st@),
        ensures
            match r {
                Some(k) => self.view(st@).dom().contains(k) && (forall|x: u64|
                    self.view(st@).dom().contains(x) ==> k >= x),
                None => self.view(st@).dom() == Set::<u64>::empty(),
            },
    {
        if self.tree.is_empty() {
            proof {
                assert(self.view(st@).dom() =~= Set::<u64>::empty());
            }
            return None;
        }
        match self.max_at(st, self.root, self.root) {
            Some(pair) => Some(pair.0.key),
            None => None,
        }
    }

    /// Returns the smallest stored key strictly greater than `key`.
    pub fn higher(&self, st: &Store, key: u64) -> (r: Option<u64>)
        requires
            self.inv(st@),
        ensures
            match r {
                Some(k) => self.view(st@).dom().contains(k) && k > key && (forall|x: u64|
                    self.view(st@).dom().contains(x) && x > key ==> k <= x),
                None => forall|x: u64| self.view(st@).dom().contains(x) ==> x <= key,
            },
    {
        if self.tree.is_empty() {
            return None;
        }
        self.above_at(st, self.root, key)
    }

    /// Returns the largest stored key strictly less than `key`.
    pub fn lower(&self, st: &Store, key: u64) -> (r: Option<u64>)
        requires
            self.inv(st@),
        ensures
            match r {
                Some(k) => self.view(st@).dom().contains(k) && k < key && (forall|x: u64|
                    self.view(st@).dom().contains(x) && x < key ==> k >= x),
                None => forall|x: u64| self.view(st@).dom().contains(x) ==> x >= key,
            },
    {
        if self.tree.is_empty() {
            return None;
        }
        self.below_at(st, self.root, key)
    }

    /// Returns the smallest stored key greater than or equal to `key`.
    pub fn ceil_key(&self, st: &Store, key: u64) -> (r: Option<u64>)
        requires
            self.inv(st@),
        ensures
            match r {
                Some(k) => self.view(st@).dom().contains(k) && k >= key && (forall|x: u64|
                    self.view(st@).dom().contains(x) && x >= key ==> k <= x),
                None => forall|x: u64| self.view(st@).dom().contains(x) ==> x < key,
            },
    {
        if self.contains_key(st, key) {
            Some(key)
        } else {
            self.higher(st, key)
        }
    }

    /// Returns the largest stored key less than or equal to `key`.
    pub fn floor_key(&self, st: &Store, key: u64) -> (r: Option<u64>)
        requires
            self.inv(st@),
        ensures
            match r {
                Some(k) => self.view(st@).dom().contains(k) && k <= key && (forall|x: u64|
                    self.view(st@).dom().contains(x) && x <= key ==> k >= x),
                None => forall|x: u64| self.view(st@).dom().contains(x) ==> x > key,
            },
    {
        if self.contains_key(st, key) {
            Some(key)
        } else {
            self.lower(st, key)
        }
    }

    /// Returns the value stored under `key`, if any.
    pub fn get(&self, st: &Store, key: u64) -> (r: Option<u64>)
        requires
            self.wf(st@),
        ensures
            r == if self.view(st@).contains_key(key) {
                Some(self.view(st@)[key])
            } else {
                None::<u64>
            },
    {
        self.val.get(st, key)
    }
}

/// A range endpoint for ordered iteration.
#[derive(Clone, Copy, Debug, PartialEq, Eq, Structural)]
pub enum Bound {
    /// The endpoint itself belongs to the range.
    Included(u64),
    /// Everything strictly beyond the endpoint belongs to the range.
    Excluded(u64),
    /// No constraint on this side.
    Unbounded,
}

/// Whether `key` lies within the two bounds.
pub open spec fn in_bounds(key: u64, lo: Bound, hi: Bound) -> bool {
    (match lo {
        Bound::Included(x) => key >= x,
        Bound::Excluded(x) => key > x,
        Bound::Unbounded => true,
    }) && (match hi {
        Bound::Included(x) => key <= x,
        Bound::Excluded(x) => key < x,
        Bound::Unbounded => true,
    })
}

/// Tests whether `key` lies within the two bounds.
pub fn fits(key: u64, lo: &Bound, hi: &Bound) -> (r: bool)
    ensures
        r == in_bounds(key, *lo, *hi),
{
    (match lo {
        Bound::Included(x) => key >= *x,
        Bound::Excluded(x) => key > *x,
        Bound::Unbounded => true,
    }) && (match hi {
        Bound::Included(x) => key <= *x,
        Bound::Excluded(x) => key < *x,
        Bound::Unbounded => true,
    })
}

/// A lazily advancing walker over an ordered map: it holds a direction, the
/// two bounds and the key it will emit next, and recomputes its successor on
/// demand from the current tree.  It is not a snapshot: mutating the map
/// invalidates a cursor built from it.
pub struct Cursor {
    asc: bool,
    lo: Bound,
    hi: Bound,
    key: Option<u64>,
}

impl Cursor {
    /// The direction of travel.
    pub closed spec fn spec_asc(self) -> bool {
        self.asc
    }

    /// The lower bound.
    pub closed spec fn spec_lo(self) -> Bound {
        self.lo
    }

    /// The upper bound.
    pub closed spec fn spec_hi(self) -> Bound {
        self.hi
    }

    /// The key the next step will emit, if any.
    pub closed spec fn spec_key(self) -> Option<u64> {
        self.key
    }

    /// The cursor's key, when present, is an entry of `view` within bounds.
    pub open spec fn valid(self, view: Map<u64, u64>) -> bool {
        match self.spec_key() {
            Some(k) => view.dom().contains(k) && in_bounds(k, self.spec_lo(), self.spec_hi()),
            None => true,
        }
    }

    /// An ascending cursor over all entries, starting at the minimum.
    pub fn asc(map: &TreeMap, st: &Store) -> (r: Cursor)
        requires
            map.inv(st@),
        ensures
            r.spec_asc() == true,
            r.spec_lo() == Bound::Unbounded,
            r.spec_hi() == Bound::Unbounded,
            r.valid(map.view(st@)),
            match r.spec_key() {
                Some(k) => forall|x: u64| map.view(st@).dom().contains(x) ==> k <= x,
                None => map.view(st@).dom() == Set::<u64>::empty(),
            },
    {
        let key = map.min(st);
        Cursor { asc: true, key, lo: Bound::Unbounded, hi: Bound::Unbounded }
    }

    /// An ascending cursor starting just above `key`.
    pub fn asc_from(map: &TreeMap, st: &Store, key: u64) -> (r: Cursor)
        requires
            map.inv(st@),
        ensures
            r.spec_asc() == true,
            r.spec_lo() == Bound::Unbounded,
            r.spec_hi() == Bound::Unbounded,
            r.valid(map.view(st@)),
            match r.spec_key() {
                Some(k) => k > key && forall|x: u64|
                    map.view(st@).dom().contains(x) && x > key ==> k <= x,
                None => forall|x: u64| map.view(st@).dom().contains(x) ==> x <= key,
            },
    {
        let start = map.higher(st, key);
        Cursor { asc: true, key: start, lo: Bound::Unbounded, hi: Bound::Unbounded }
    }

    /// A descending cursor over all entries, starting at the maximum.
    pub fn desc(map: &TreeMap, st: &Store) -> (r: Cursor)
        requires
            map.inv(st@),
        ensures
            r.spec_asc() == false,
            r.spec_lo() == Bound::Unbounded,
            r.spec_hi() == Bound::Unbounded,
            r.valid(map.view(st@)),
            match r.spec_key() {
                Some(k) => forall|x: u64| map.view(st@).dom().contains(x) ==> k >= x,
                None => map.view(st@).dom() == Set::<u64>::empty(),
            },
    {
        let key = map.max(st);
        Cursor { asc: false, key, lo: Bound::Unbounded, hi: Bound::Unbounded }
    }

    /// A descending cursor starting just below `key`.
    pub fn desc_from(map: &TreeMap, st: &Store, key: u64) -> (r: Cursor)
        requires
            map.inv(st@),
        ensures
            r.spec_asc() == false,
            r.spec_lo() == Bound::Unbounded,
            r.spec_hi() == Bound::Unbounded,
            r.valid(map.view(st@)),
            match r.spec_key() {
                Some(k) => k < key && forall|x: u64|
                    map.view(st@).dom().contains(x) && x < key ==> k >= x,
                None => forall|x: u64| map.view(st@).dom().contains(x) ==> x >= key,
            },
    {
        let start = map.lower(st, key);
        Cursor { asc: false, key: start, lo: Bound::Unbounded, hi: Bound::Unbounded }
    }

    /// An ascending cursor over the entries within `lo` and `hi`, starting at
    /// the least key within bounds.
    pub fn range(map: &TreeMap, st: &Store, lo: Bound, hi: Bound) -> (r: Cursor)
        requires
            map.inv(st@),
        ensures
            r.spec_asc() == true,
            r.spec_lo() == lo,
            r.spec_hi() == hi,
            r.valid(map.view(st@)),
            match r.spec_key() {
                Some(k) => forall|x: u64|
                    map.view(st@).dom().contains(x) && in_bounds(x, lo, hi) ==> k <= x,
                None => forall|x: u64| map.view(st@).dom().contains(x) ==> !in_bounds(x, lo, hi),
            },
    {
        let candidate = match lo {
            Bound::Included(k) => {
                if map.contains_key(st, k) {
                    Some(k)
                } else {
                    map.higher(st, k)
                }
            },
            Bound::Excluded(k) => map.higher(st, k),
            Bound::Unbounded => map.min(st),
        };
        let key = match candidate {
            Some(k) => {
                if fits(k, &lo, &hi) {
                    Some(k)
                } else {
                    None
                }
            },
            None => None,
        };
        Cursor { asc: true, key, lo, hi }
    }

    /// Emits the entry at the cursor's key and advances to the nearest key in
    /// the direction of travel that still lies within bounds.
    pub fn next(&mut self, map: &TreeMap, st: &Store) -> (r: Option<(u64, u64)>)
        requires
            map.inv(st@),
            old(self).valid(map.view(st@)),
        ensures
            final(self).spec_asc() == old(self).spec_asc(),
            final(self).spec_lo() == old(self).spec_lo(),
            final(self).spec_hi() == old(self).spec_hi(),
            final(self).valid(map.view(st@)),
            r == match old(self).spec_key() {
                Some(k) => Some((k, map.view(st@)[k])),
                None => None::<(u64, u64)>,
            },
            old(self).spec_key() is None ==> final(self).spec_key() is None,
            old(self).spec_key() is Some && old(self).spec_asc() ==> {
                let k = old(self).spec_key().unwrap();
                match final(self).spec_key() {
                    Some(k2) => k2 > k && (forall|x: u64|
                        map.view(st@).dom().contains(x) && x > k && in_bounds(
                            x,
                            old(self).spec_lo(),
                            old(self).spec_hi(),
                        ) ==> k2 <= x),
                    None => forall|x: u64|
                        map.view(st@).dom().contains(x) && x > k ==> !in_bounds(
                            x,
                            old(self).spec_lo(),
                            old(self).spec_hi(),
                        ),
                }
            },
            old(self).spec_key() is Some && !old(self).spec_asc() ==> {
                let k = old(self).spec_key().unwrap();
                match final(self).spec_key() {
                    Some(k2) => k2 < k && (forall|x: u64|
                        map.view(st@).dom().contains(x) && x < k && in_bounds(
                            x,
                            old(self).spec_lo(),
                            old(self).spec_hi(),
                        ) ==> k2 >= x),
                    None => forall|x: u64|
                        map.view(st@).dom().contains(x) && x < k ==> !in_bounds(
                            x,
                            old(self).spec_lo(),
                            old(self).spec_hi(),
                        ),
                }
            },
    {
        let this_key = self.key;
        match this_key {
            None => None,
            Some(k) => {
                let step = if self.asc {
                    map.higher(st, k)
                } else {
                    map.lower(st, k)
                };
                let next_key = match step {
                    Some(k2) => {
                        if fits(k2, &self.lo, &self.hi) {
                            Some(k2)
                        } else {
                            None
                        }
                    },
                    None => None,
                };
                self.key = next_key;
                match map.get(st, k) {
                    Some(v) => Some((k, v)),
                    None => {
                        // unreachable: a valid cursor's key is an entry
                        None
                    },
                }
            },
        }
    }
}

} // verus!
