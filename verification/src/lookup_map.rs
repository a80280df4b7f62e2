//! A non-iterable key-to-value map layered directly on the byte store.
//!
//! Each entry lives under `prefix ‖ le(key)`; there is no index and no
//! ordering, so the map cannot enumerate its entries, but each operation is a
//! single backend access.

use vstd::prelude::*;
use vstd::bytes::u64_to_le_bytes;
use vstd::bytes::u64_from_le_bytes;
use vstd::bytes::spec_u64_to_le_bytes;
use vstd::bytes::spec_u64_from_le_bytes;
use vstd::bytes::lemma_auto_spec_u64_to_from_le_bytes;

use crate::keys::agree_outside_region;
use crate::keys::append_slice;
use crate::keys::lemma_concat_cancel;
use crate::keys::lemma_prefixed;
use crate::store::Store;

verus! {

/// Inserts the pairs of `entries` into `m`, in order.
pub open spec fn inserted_all(m: Map<u64, u64>, entries: Seq<(u64, u64)>) -> Map<u64, u64>
    decreases entries.len(),
{
    if entries.len() == 0 {
        m
    } else {
        inserted_all(m, entries.drop_last()).insert(entries.last().0, entries.last().1)
    }
}

/// A direct-lookup map from `u64` keys to `u64` values.
pub struct LookupMap {
    key_prefix: Vec<u8>,
}

impl LookupMap {
    /// The key prefix of the region this map owns.
    pub closed spec fn spec_prefix(self) -> Seq<u8> {
        self.key_prefix@
    }

    /// The backend key of entry `k`.
    pub open spec fn key_at(self, k: u64) -> Seq<u8> {
        self.spec_prefix() + spec_u64_to_le_bytes(k)
    }

    /// Whether a backend key belongs to this map's region.
    pub open spec fn in_region(self, bk: Seq<u8>) -> bool {
        self.spec_prefix().is_prefix_of(bk)
    }

    /// Well-formedness of the region: every entry under this prefix has an
    /// eight-byte key suffix and an eight-byte value.
    pub open spec fn wf(self, m: Map<Seq<u8>, Seq<u8>>) -> bool {
        forall|bk: Seq<u8>| #[trigger] m.contains_key(bk) && self.in_region(bk) ==> bk.len()
            == self.spec_prefix().len() + 8 && m[bk].len() == 8
    }

    /// The stored entries, decoded.
    pub open spec fn view(self, m: Map<Seq<u8>, Seq<u8>>) -> Map<u64, u64> {
        Map::new(
            |k: u64| m.contains_key(self.key_at(k)),
            |k: u64| spec_u64_from_le_bytes(m[self.key_at(k)]),
        )
    }

    /// Entry keys lie in the region.
    pub proof fn lemma_key_at_region(self, k: u64)
        ensures
            self.in_region(self.key_at(k)),
    {
        lemma_prefixed(self.spec_prefix(), spec_u64_to_le_bytes(k));
    }

    /// Entry keys are distinct for distinct keys.
    pub proof fn lemma_key_at_injective(self, i: u64, j: u64)
        requires
            self.key_at(i) == self.key_at(j),
        ensures
            i == j,
    {
        lemma_concat_cancel(self.spec_prefix(), spec_u64_to_le_bytes(i), spec_u64_to_le_bytes(j));
        lemma_auto_spec_u64_to_from_le_bytes();
    }

    /// Creates a map owning the region of `key_prefix`.
    pub fn new(key_prefix: Vec<u8>) -> (r: Self)
        ensures
            r.spec_prefix() == key_prefix@,
    {
        Self { key_prefix }
    }

    fn raw_key_to_storage_key(&self, raw_key: &[u8]) -> (r: Vec<u8>)
        ensures
            r@ == self.spec_prefix() + raw_key@,
    {
        append_slice(self.key_prefix.as_slice(), raw_key)
    }

    fn serialize_key(key: u64) -> (r: Vec<u8>)
        ensures
            r@ == spec_u64_to_le_bytes(key),
            r@.len() == 8,
    {
        proof {
            lemma_auto_spec_u64_to_from_le_bytes();
        }
        u64_to_le_bytes(key)
    }

    fn serialize_value(value: u64) -> (r: Vec<u8>)
        ensures
            r@ == spec_u64_to_le_bytes(value),
            r@.len() == 8,
    {
        proof {
            lemma_auto_spec_u64_to_from_le_bytes();
        }
        u64_to_le_bytes(value)
    }

    fn deserialize_value(raw_value: &[u8]) -> (r: Option<u64>)
        ensures
            r == if raw_value@.len() == 8 {
                Some(spec_u64_from_le_bytes(raw_value@))
            } else {
                None::<u64>
            },
    {
        if raw_value.len() == 8 {
            Some(u64_from_le_bytes(raw_value))
        } else {
            None
        }
    }

    fn contains_key_raw(&self, st: &Store, key_raw: &[u8]) -> (r: bool)
        ensures
            r == st@.contains_key(self.spec_prefix() + key_raw@),
    {
        let storage_key = self.raw_key_to_storage_key(key_raw);
        st.has(storage_key.as_slice())
    }

    fn get_raw(&self, st: &Store, key_raw: &[u8]) -> (r: Option<Vec<u8>>)
        ensures
            match r {
                Some(v) => st@.contains_key(self.spec_prefix() + key_raw@) && v@ == st@[
                    self.spec_prefix() + key_raw@],
                None => !st@.contains_key(self.spec_prefix() + key_raw@),
            },
    {
        let storage_key = self.raw_key_to_storage_key(key_raw);
        st.read(storage_key.as_slice())
    }

    /// Inserts a serialized key-value pair, returning the serialized value it
    /// displaced, if any.
    pub fn insert_raw(&mut self, st: &mut Store, key_raw: &[u8], value_raw: &[u8]) -> (r: Option<
        Vec<u8>,
    >)
        ensures
            *final(self) == *old(self),
            final(st)@ == old(st)@.insert(old(self).spec_prefix() + key_raw@, value_raw@),
            agree_outside_region(old(st)@, final(st)@, old(self).spec_prefix()),
            match r {
                Some(v) => old(st)@.contains_key(old(self).spec_prefix() + key_raw@) && v@ == old(
                    st,
                )@[old(self).spec_prefix() + key_raw@],
                None => !old(st)@.contains_key(old(self).spec_prefix() + key_raw@),
            },
    {
        let storage_key = self.raw_key_to_storage_key(key_raw);
        let r = st.write(storage_key.as_slice(), value_raw);
        proof {
            lemma_prefixed(self.spec_prefix(), key_raw@);
        }
        r
    }

    /// Removes a serialized key, returning the serialized value it displaced,
    /// if any.
    pub fn remove_raw(&mut self, st: &mut Store, key_raw: &[u8]) -> (r: Option<Vec<u8>>)
        ensures
            *final(self) == *old(self),
            final(st)@ == old(st)@.remove(old(self).spec_prefix() + key_raw@),
            agree_outside_region(old(st)@, final(st)@, old(self).spec_prefix()),
            match r {
                Some(v) => old(st)@.contains_key(old(self).spec_prefix() + key_raw@) && v@ == old(
                    st,
                )@[old(self).spec_prefix() + key_raw@],
                None => !old(st)@.contains_key(old(self).spec_prefix() + key_raw@),
            },
    {
        let storage_key = self.raw_key_to_storage_key(key_raw);
        let r = st.remove(storage_key.as_slice());
        proof {
            lemma_prefixed(self.spec_prefix(), key_raw@);
        }
        r
    }

    /// Returns true if the map contains the given key.
    pub fn contains_key(&self, st: &Store, key: u64) -> (r: bool)
        ensures
            r == self.view(st@).contains_key(key),
    {
        let key_raw = Self::serialize_key(key);
        self.contains_key_raw(st, key_raw.as_slice())
    }

    /// Returns the value corresponding to the key.
    pub fn get(&self, st: &Store, key: u64) -> (r: Option<u64>)
        requires
            self.wf(st@),
        ensures
            r == if self.view(st@).contains_key(key) {
                Some(self.view(st@)[key])
            } else {
                None::<u64>
            },
    {
        let key_raw = Self::serialize_key(key);
        match self.get_raw(st, key_raw.as_slice()) {
            Some(raw_value) => {
                proof {
                    self.lemma_key_at_region(key);
                }
                match Self::deserialize_value(raw_value.as_slice()) {
                    Some(value) => Some(value),
                    None => {
                        // impossible: stored values are eight bytes
                        None
                    },
                }
            },
            None => None,
        }
    }

    /// Inserts a key-value pair, returning the value it displaced, if any.
    pub fn insert(&mut self, st: &mut Store, key: u64, value: u64) -> (r: Option<u64>)
        requires
            old(self).wf(old(st)@),
        ensures
            *final(self) == *old(self),
            final(self).wf(final(st)@),
            final(self).view(final(st)@) == old(self).view(old(st)@).insert(key, value),
            agree_outside_region(old(st)@, final(st)@, old(self).spec_prefix()),
            r == if old(self).view(old(st)@).contains_key(key) {
                Some(old(self).view(old(st)@)[key])
            } else {
                None::<u64>
            },
    {
        let ghost m0 = st@;
        let key_raw = Self::serialize_key(key);
        let value_raw = Self::serialize_value(value);
        let raw_evicted = self.insert_raw(st, key_raw.as_slice(), value_raw.as_slice());
        proof {
            let m1 = st@;
            self.lemma_key_at_region(key);
            assert forall|bk: Seq<u8>| #[trigger] m1.contains_key(bk) && self.in_region(bk)
                implies bk.len() == self.spec_prefix().len() + 8 && m1[bk].len() == 8 by {
                if bk != self.key_at(key) {
                    assert(m0.contains_key(bk));
                }
            }
            lemma_auto_spec_u64_to_from_le_bytes();
            let va = self.view(m1);
            let vb = old(self).view(m0).insert(key, value);
            assert forall|k: u64| #![auto] va.dom().contains(k) <==> vb.dom().contains(k) by {
                if self.key_at(k) == self.key_at(key) {
                    self.lemma_key_at_injective(k, key);
                }
            }
            assert forall|k: u64| #![auto] va.dom().contains(k) && vb.dom().contains(k) implies va[k]
                == vb[k] by {
                if self.key_at(k) == self.key_at(key) {
                    self.lemma_key_at_injective(k, key);
                }
            }
            assert(va.dom() =~= vb.dom());
            assert(va =~= vb);
        }
        match raw_evicted {
            Some(raw_value) => {
                match Self::deserialize_value(raw_value.as_slice()) {
                    Some(previous) => Some(previous),
                    None => {
                        // impossible: stored values are eight bytes
                        None
                    },
                }
            },
            None => None,
        }
    }

    /// Removes a key, returning the value it displaced, if any.  Removing an
    /// absent key leaves the store untouched.
    pub fn remove(&mut self, st: &mut Store, key: u64) -> (r: Option<u64>)
        requires
            old(self).wf(old(st)@),
        ensures
            *final(self) == *old(self),
            final(self).wf(final(st)@),
            final(self).view(final(st)@) == old(self).view(old(st)@).remove(key),
            agree_outside_region(old(st)@, final(st)@, old(self).spec_prefix()),
            !old(self).view(old(st)@).contains_key(key) ==> final(st)@ == old(st)@,
            r == if old(self).view(old(st)@).contains_key(key) {
                Some(old(self).view(old(st)@)[key])
            } else {
                None::<u64>
            },
    {
        let ghost m0 = st@;
        let key_raw = Self::serialize_key(key);
        let raw_evicted = self.remove_raw(st, key_raw.as_slice());
        proof {
            let m1 = st@;
            self.lemma_key_at_region(key);
            assert forall|bk: Seq<u8>| #[trigger] m1.contains_key(bk) && self.in_region(bk)
                implies bk.len() == self.spec_prefix().len() + 8 && m1[bk].len() == 8 by {
                assert(m0.contains_key(bk));
            }
            let va = self.view(m1);
            let vb = old(self).view(m0).remove(key);
            assert forall|k: u64| #![auto] va.dom().contains(k) <==> vb.dom().contains(k) by {
                if self.key_at(k) == self.key_at(key) {
                    self.lemma_key_at_injective(k, key);
                }
            }
            assert forall|k: u64| #![auto] va.dom().contains(k) && vb.dom().contains(k) implies va[k]
                == vb[k] by {
                if self.key_at(k) == self.key_at(key) {
                    self.lemma_key_at_injective(k, key);
                }
            }
            assert(va.dom() =~= vb.dom());
            assert(va =~= vb);
            if !old(self).view(m0).contains_key(key) {
                assert(m1 =~= m0);
            }
        }
        match raw_evicted {
            Some(raw_value) => {
                match Self::deserialize_value(raw_value.as_slice()) {
                    Some(previous) => Some(previous),
                    None => {
                        // impossible: stored values are eight bytes
                        None
                    },
                }
            },
            None => None,
        }
    }

    /// Inserts every pair of `entries`, in order.
    pub fn extend(&mut self, st: &mut Store, entries: &Vec<(u64, u64)>)
        requires
            old(self).wf(old(st)@),
        ensures
            *final(self) == *old(self),
            final(self).wf(final(st)@),
            final(self).view(final(st)@) == inserted_all(old(self).view(old(st)@), entries@),
            agree_outside_region(old(st)@, final(st)@, old(self).spec_prefix()),
    {
        let n = entries.len();
        let mut i: usize = 0;
        while i < n
            invariant
                n == entries@.len(),
                i <= n,
                *self == *old(self),
                self.wf(st@),
                self.view(st@) == inserted_all(old(self).view(old(st)@), entries@.take(i as int)),
                agree_outside_region(old(st)@, st@, old(self).spec_prefix()),
            decreases n - i,
        {
            let ghost m0 = st@;
            let (el_key, el_value) = entries[i];
            self.insert(st, el_key, el_value);
            proof {
                assert(entries@.take(i + 1).drop_last() =~= entries@.take(i as int));
                assert(entries@.take(i + 1).last() == entries@[i as int]);
                crate::keys::lemma_agree_outside_trans(old(st)@, m0, st@, old(self).spec_prefix());
            }
            i = i + 1;
        }
        proof {
            assert(entries@.take(n as int) =~= entries@);
        }
    }
}

} // verus!
