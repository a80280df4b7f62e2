//! A non-iterable set layered directly on the byte store.
//!
//! Each element lives under `prefix ‖ le(element)` with an empty value; the
//! set cannot enumerate its elements, but each operation is a single backend
//! access.

use vstd::prelude::*;
use vstd::bytes::u64_to_le_bytes;
use vstd::bytes::spec_u64_to_le_bytes;

use crate::keys::agree_outside_region;
use crate::keys::append_slice;
use crate::keys::lemma_prefixed;
use crate::store::Store;

verus! {

/// Inserts the elements of `elements` into `s`, in order.
pub open spec fn all_inserted(s: Set<u64>, elements: Seq<u64>) -> Set<u64>
    decreases elements.len(),
{
    if elements.len() == 0 {
        s
    } else {
        all_inserted(s, elements.drop_last()).insert(elements.last())
    }
}

/// A direct-lookup set of `u64` elements.
pub struct LookupSet {
    element_prefix: Vec<u8>,
}

impl LookupSet {
    /// The key prefix of the region this set owns.
    pub closed spec fn spec_prefix(self) -> Seq<u8> {
        self.element_prefix@
    }

    /// The backend key of element `e`.
    pub open spec fn key_at(self, e: u64) -> Seq<u8> {
        self.spec_prefix() + spec_u64_to_le_bytes(e)
    }

    /// The stored elements.
    pub open spec fn view(self, m: Map<Seq<u8>, Seq<u8>>) -> Set<u64> {
        Set::new(|e: u64| m.contains_key(self.key_at(e)))
    }

    /// Creates a set owning the region of `element_prefix`.
    pub fn new(element_prefix: Vec<u8>) -> (r: Self)
        ensures
            r.spec_prefix() == element_prefix@,
    {
        Self { element_prefix }
    }

    fn raw_element_to_storage_key(&self, element_raw: &[u8]) -> (r: Vec<u8>)
        ensures
            r@ == self.spec_prefix() + element_raw@,
    {
        append_slice(self.element_prefix.as_slice(), element_raw)
    }

    fn serialize_element(element: u64) -> (r: Vec<u8>)
        ensures
            r@ == spec_u64_to_le_bytes(element),
    {
        u64_to_le_bytes(element)
    }

    fn contains_raw(&self, st: &Store, element_raw: &[u8]) -> (r: bool)
        ensures
            r == st@.contains_key(self.spec_prefix() + element_raw@),
    {
        let storage_key = self.raw_element_to_storage_key(element_raw);
        st.has(storage_key.as_slice())
    }

    /// Inserts a serialized element; returns `true` if it was not yet present.
    pub fn insert_raw(&mut self, st: &mut Store, element_raw: &[u8]) -> (r: bool)
        ensures
            *final(self) == *old(self),
            final(st)@ == old(st)@.insert(old(self).spec_prefix() + element_raw@, Seq::empty()),
            agree_outside_region(old(st)@, final(st)@, old(self).spec_prefix()),
            r == !old(st)@.contains_key(old(self).spec_prefix() + element_raw@),
    {
        let storage_key = self.raw_element_to_storage_key(element_raw);
        let empty: [u8; 0] = [];
        let evicted = st.write(storage_key.as_slice(), empty.as_slice());
        proof {
            lemma_prefixed(self.spec_prefix(), element_raw@);
            assert(empty@ =~= Seq::<u8>::empty());
        }
        evicted.is_none()
    }

    /// Removes a serialized element; returns `true` if it was present.
    pub fn remove_raw(&mut self, st: &mut Store, element_raw: &[u8]) -> (r: bool)
        ensures
            *final(self) == *old(self),
            final(st)@ == old(st)@.remove(old(self).spec_prefix() + element_raw@),
            agree_outside_region(old(st)@, final(st)@, old(self).spec_prefix()),
            r == old(st)@.contains_key(old(self).spec_prefix() + element_raw@),
    {
        let storage_key = self.raw_element_to_storage_key(element_raw);
        let evicted = st.remove(storage_key.as_slice());
        proof {
            lemma_prefixed(self.spec_prefix(), element_raw@);
        }
        evicted.is_some()
    }

    /// Returns true if the set contains the element.
    pub fn contains(&self, st: &Store, element: u64) -> (r: bool)
        ensures
            r == self.view(st@).contains(element),
    {
        let element_raw = Self::serialize_element(element);
        self.contains_raw(st, element_raw.as_slice())
    }

    /// Adds an element; returns `true` if it was not yet present.
    pub fn insert(&mut self, st: &mut Store, element: u64) -> (r: bool)
        ensures
            *final(self) == *old(self),
            final(self).view(final(st)@) == old(self).view(old(st)@).insert(element),
            agree_outside_region(old(st)@, final(st)@, old(self).spec_prefix()),
            r == !old(self).view(old(st)@).contains(element),
    {
        let ghost m0 = st@;
        let element_raw = Self::serialize_element(element);
        let r = self.insert_raw(st, element_raw.as_slice());
        proof {
            let va = self.view(st@);
            let vb = old(self).view(m0).insert(element);
            assert forall|e: u64| #![auto] va.contains(e) <==> vb.contains(e) by {
                if self.key_at(e) == self.key_at(element) {
                    crate::keys::lemma_concat_cancel(
                        self.spec_prefix(),
                        spec_u64_to_le_bytes(e),
                        spec_u64_to_le_bytes(element),
                    );
                    vstd::bytes::lemma_auto_spec_u64_to_from_le_bytes();
                }
            }
            assert(va =~= vb);
        }
        r
    }

    /// Removes an element; returns `true` if it was present.
    pub fn remove(&mut self, st: &mut Store, element: u64) -> (r: bool)
        ensures
            *final(self) == *old(self),
            final(self).view(final(st)@) == old(self).view(old(st)@).remove(element),
            agree_outside_region(old(st)@, final(st)@, old(self).spec_prefix()),
            r == old(self).view(old(st)@).contains(element),
    {
        let ghost m0 = st@;
        let element_raw = Self::serialize_element(element);
        let r = self.remove_raw(st, element_raw.as_slice());
        proof {
            let va = self.view(st@);
            let vb = old(self).view(m0).remove(element);
            assert forall|e: u64| #![auto] va.contains(e) <==> vb.contains(e) by {
                if self.key_at(e) == self.key_at(element) {
                    crate::keys::lemma_concat_cancel(
                        self.spec_prefix(),
                        spec_u64_to_le_bytes(e),
                        spec_u64_to_le_bytes(element),
                    );
                    vstd::bytes::lemma_auto_spec_u64_to_from_le_bytes();
                }
            }
            assert(va =~= vb);
        }
        r
    }

    /// Inserts every element of `elements`, in order.
    pub fn extend(&mut self, st: &mut Store, elements: &Vec<u64>)
        ensures
            *final(self) == *old(self),
            final(self).view(final(st)@) == all_inserted(old(self).view(old(st)@), elements@),
            agree_outside_region(old(st)@, final(st)@, old(self).spec_prefix()),
    {
        let n = elements.len();
        let mut i: usize = 0;
        while i < n
            invariant
                n == elements@.len(),
                i <= n,
                *self == *old(self),
                self.view(st@) == all_inserted(old(self).view(old(st)@), elements@.take(i as int)),
                agree_outside_region(old(st)@, st@, old(self).spec_prefix()),
            decreases n - i,
        {
            let ghost m0 = st@;
            self.insert(st, elements[i]);
            proof {
                assert(elements@.take(i + 1).drop_last() =~= elements@.take(i as int));
                assert(elements@.take(i + 1).last() == elements@[i as int]);
                crate::keys::lemma_agree_outside_trans(old(st)@, m0, st@, old(self).spec_prefix());
            }
            i = i + 1;
        }
        proof {
            assert(elements@.take(n as int) =~= elements@);
        }
    }
}

} // verus!
