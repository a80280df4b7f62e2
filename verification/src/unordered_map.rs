//! An iterable map: keys and values live in two parallel arrays, and a third
//! region maps each serialized key to its position, so lookups stay direct
//! while the arrays allow enumeration.  Removal swaps the last entry into the
//! vacated position and re-points its index entry.

use vstd::prelude::*;
use vstd::bytes::u64_to_le_bytes;
use vstd::bytes::u64_from_le_bytes;
use vstd::bytes::spec_u64_to_le_bytes;
use vstd::bytes::spec_u64_from_le_bytes;
use vstd::bytes::lemma_auto_spec_u64_to_from_le_bytes;

use crate::keys::agree_outside_region;
use crate::keys::append;
use crate::keys::append_slice;
use crate::keys::lemma_concat_cancel;
use crate::keys::lemma_prefixed;
use crate::store::Store;
use crate::store::bytes_eq;
use crate::vector::Vector;

verus! {

/// The tag byte (ASCII `i`) for the key-to-index region.
pub const INDEX_TAG: u8 = 105;

/// The tag byte (ASCII `k`) for the keys array.
pub const KEYS_TAG: u8 = 107;

/// The tag byte (ASCII `v`) for the values array.
pub const VALUES_TAG: u8 = 118;

/// Two maps agree outside three given regions.
pub open spec fn agree_outside_three(
    m1: Map<Seq<u8>, Seq<u8>>,
    m2: Map<Seq<u8>, Seq<u8>>,
    p1: Seq<u8>,
    p2: Seq<u8>,
    p3: Seq<u8>,
) -> bool {
    &&& forall|k: Seq<u8>|
        !p1.is_prefix_of(k) && !p2.is_prefix_of(k) && !p3.is_prefix_of(k)
            ==> #[trigger] m1.contains_key(k) == m2.contains_key(k)
    &&& forall|k: Seq<u8>|
        !p1.is_prefix_of(k) && !p2.is_prefix_of(k) && !p3.is_prefix_of(k)
            && #[trigger] m1.contains_key(k) ==> m1[k] == m2[k]
}

/// An iterable map from `u64` keys to `u64` values.
pub struct UnorderedMap {
    key_index_prefix: Vec<u8>,
    keys: Vector,
    values: Vector,
}

impl UnorderedMap {
    /// The prefix of the key-to-index region.
    pub closed spec fn index_prefix(self) -> Seq<u8> {
        self.key_index_prefix@
    }

    /// The prefix of the keys array's region.
    pub closed spec fn keys_prefix(self) -> Seq<u8> {
        self.keys.spec_prefix()
    }

    /// The prefix of the values array's region.
    pub closed spec fn values_prefix(self) -> Seq<u8> {
        self.values.spec_prefix()
    }

    /// The backend key of the index entry for `k`.
    pub closed spec fn index_key(self, k: u64) -> Seq<u8> {
        self.index_prefix() + spec_u64_to_le_bytes(k)
    }

    /// The keys, in storage order.
    pub closed spec fn keys_view(self, m: Map<Seq<u8>, Seq<u8>>) -> Seq<u64> {
        self.keys.view(m)
    }

    /// The values, in storage order.
    pub closed spec fn values_view(self, m: Map<Seq<u8>, Seq<u8>>) -> Seq<u64> {
        self.values.view(m)
    }

    /// The position recorded for key `k`, if its index entry exists.
    pub closed spec fn index_of(self, m: Map<Seq<u8>, Seq<u8>>, k: u64) -> Option<u64> {
        if m.contains_key(self.index_key(k)) {
            Some(spec_u64_from_le_bytes(m[self.index_key(k)]))
        } else {
            None
        }
    }

    /// Region-level well-formedness: the three regions are pairwise disjoint
    /// and well-formed, the two arrays hold decodable elements and have equal
    /// lengths, and every index entry is eight bytes on both sides.
    pub closed spec fn wf(self, m: Map<Seq<u8>, Seq<u8>>) -> bool {
        &&& self.index_prefix().len() == self.keys_prefix().len()
        &&& self.index_prefix().len() == self.values_prefix().len()
        &&& self.index_prefix() != self.keys_prefix()
        &&& self.index_prefix() != self.values_prefix()
        &&& self.keys_prefix() != self.values_prefix()
        &&& self.keys.wf(m)
        &&& self.values.wf(m)
        &&& self.keys.elems_wf(m)
        &&& self.values.elems_wf(m)
        &&& self.keys.spec_len() == self.values.spec_len()
        &&& forall|bk: Seq<u8>|
            #[trigger] m.contains_key(bk) && self.index_prefix().is_prefix_of(bk) ==> bk.len()
                == self.index_prefix().len() + 8 && m[bk].len() == 8
    }

    /// Creates a map with zero elements owning the three regions derived from
    /// `id`.
    pub fn new(id: Vec<u8>) -> (r: Self)
        ensures
            r.index_prefix() == id@.push(INDEX_TAG),
            r.keys_prefix() == id@.push(KEYS_TAG),
            r.values_prefix() == id@.push(VALUES_TAG),
            r.keys_view_len_is(0),
    {
        let key_index_prefix = append(id.as_slice(), INDEX_TAG);
        let index_key_id = append(id.as_slice(), KEYS_TAG);
        let index_value_id = append(id.as_slice(), VALUES_TAG);
        let r = Self {
            key_index_prefix,
            keys: Vector::new(index_key_id),
            values: Vector::new(index_value_id),
        };
        proof {
            assert(r.index_prefix()[id@.len() as int] != r.keys_prefix()[id@.len() as int]);
        }
        r
    }

    /// Whether both arrays have the given length.
    pub closed spec fn keys_view_len_is(self, n: u64) -> bool {
        self.keys.spec_len() == n && self.values.spec_len() == n
    }

    /// The number of entries (the length of the keys array).
    pub closed spec fn spec_len(self) -> u64 {
        self.keys.spec_len()
    }

    /// Whether the two arrays are in step.
    pub closed spec fn lens_agree(self) -> bool {
        self.keys.spec_len() == self.values.spec_len()
    }

    /// Returns the number of entries in the map.
    pub fn len(&self) -> (r: u64)
        requires
            self.lens_agree(),
        ensures
            r == self.spec_len(),
    {
        let keys_len = self.keys.len();
        let values_len = self.values.len();
        if keys_len != values_len {
            // impossible: the arrays are kept in step
            keys_len
        } else {
            keys_len
        }
    }

    /// Returns `true` if the map contains no entries.
    pub fn is_empty(&self) -> (r: bool)
        requires
            self.lens_agree(),
        ensures
            r == (self.spec_len() == 0),
    {
        let keys_is_empty = self.keys.is_empty();
        let values_is_empty = self.values.is_empty();
        if keys_is_empty != values_is_empty {
            // impossible: the arrays are kept in step
            keys_is_empty
        } else {
            keys_is_empty
        }
    }

    fn serialize_index(index: u64) -> (r: Vec<u8>)
        ensures
            r@ == spec_u64_to_le_bytes(index),
            r@.len() == 8,
    {
        proof {
            lemma_auto_spec_u64_to_from_le_bytes();
        }
        u64_to_le_bytes(index)
    }

    fn deserialize_index(raw_index: &[u8]) -> (r: Option<u64>)
        ensures
            r == if raw_index@.len() == 8 {
                Some(spec_u64_from_le_bytes(raw_index@))
            } else {
                None::<u64>
            },
    {
        if raw_index.len() == 8 {
            Some(u64_from_le_bytes(raw_index))
        } else {
            None
        }
    }

    fn serialize_key(key: u64) -> (r: Vec<u8>)
        ensures
            r@ == spec_u64_to_le_bytes(key),
            r@.len() == 8,
    {
        proof {
            lemma_auto_spec_u64_to_from_le_bytes();
        }
        u64_to_le_bytes(key)
    }

    fn serialize_value(value: u64) -> (r: Vec<u8>)
        ensures
            r@ == spec_u64_to_le_bytes(value),
            r@.len() == 8,
    {
        proof {
            lemma_auto_spec_u64_to_from_le_bytes();
        }
        u64_to_le_bytes(value)
    }

    fn deserialize_value(raw_value: &[u8]) -> (r: Option<u64>)
        ensures
            r == if raw_value@.len() == 8 {
                Some(spec_u64_from_le_bytes(raw_value@))
            } else {
                None::<u64>
            },
    {
        if raw_value.len() == 8 {
            Some(u64_from_le_bytes(raw_value))
        } else {
            None
        }
    }

    fn raw_key_to_index_lookup(&self, raw_key: &[u8]) -> (r: Vec<u8>)
        ensures
            r@ == self.index_prefix() + raw_key@,
    {
        append_slice(self.key_index_prefix.as_slice(), raw_key)
    }

    fn get_index_raw(&self, st: &Store, key_raw: &[u8]) -> (r: Option<u64>)
        requires
            self.wf(st@),
        ensures
            r == if st@.contains_key(self.index_prefix() + key_raw@) {
                Some(spec_u64_from_le_bytes(st@[self.index_prefix() + key_raw@]))
            } else {
                None::<u64>
            },
    {
        let index_lookup = self.raw_key_to_index_lookup(key_raw);
        match st.read(index_lookup.as_slice()) {
            Some(raw_index) => {
                proof {
                    lemma_prefixed(self.index_prefix(), key_raw@);
                }
                Self::deserialize_index(raw_index.as_slice())
            },
            None => None,
        }
    }

    /// Returns the value corresponding to the key.
    pub fn get(&self, st: &Store, key: u64) -> (r: Option<u64>)
        requires
            self.wf(st@),
            match self.index_of(st@, key) {
                Some(i) => i < self.spec_len(),
                None => true,
            },
        ensures
            r == match self.index_of(st@, key) {
                Some(i) => Some(self.values_view(st@)[i as int]),
                None => None::<u64>,
            },
    {
        let key_raw = Self::serialize_key(key);
        match self.get_index_raw(st, key_raw.as_slice()) {
            Some(index) => self.values.get(st, index),
            None => None,
        }
    }

    /// Inserts a key-value pair.  A fresh key is appended to both arrays and
    /// its position recorded; an existing key only has its value overwritten.
    /// Returns the value it displaced, if any.
    pub fn insert(&mut self, st: &mut Store, key: u64, value: u64) -> (r: Option<u64>)
        requires
            old(self).wf(old(st)@),
            old(self).spec_len() < u64::MAX,
            match old(self).index_of(old(st)@, key) {
                Some(i) => i < old(self).spec_len(),
                None => true,
            },
        ensures
            final(self).wf(final(st)@),
            final(self).index_prefix() == old(self).index_prefix(),
            final(self).keys_prefix() == old(self).keys_prefix(),
            final(self).values_prefix() == old(self).values_prefix(),
            agree_outside_three(
                old(st)@,
                final(st)@,
                old(self).index_prefix(),
                old(self).keys_prefix(),
                old(self).values_prefix(),
            ),
            final(self).lens_agree(),
            final(self).spec_len() == (match old(self).index_of(old(st)@, key) {
                Some(i) => old(self).spec_len() as int,
                None => old(self).spec_len() + 1,
            }),
            match old(self).index_of(old(st)@, key) {
                Some(i) => {
                    &&& final(self).keys_view(final(st)@) == old(self).keys_view(old(st)@)
                    &&& final(self).values_view(final(st)@) == old(self).values_view(
                        old(st)@,
                    ).update(i as int, value)
                    &&& r == Some(old(self).values_view(old(st)@)[i as int])
                    &&& (forall|k: u64| final(self).index_of(final(st)@, k) == old(self).index_of(
                        old(st)@,
                        k,
                    ))
                },
                None => {
                    &&& final(self).keys_view(final(st)@) == old(self).keys_view(old(st)@).push(
                        key,
                    )
                    &&& final(self).values_view(final(st)@) == old(self).values_view(
                        old(st)@,
                    ).push(value)
                    &&& r == None::<u64>
                    &&& final(self).index_of(final(st)@, key) == Some(old(self).spec_len())
                    &&& (forall|k: u64|
                        k != key ==> final(self).index_of(final(st)@, k) == old(self).index_of(
                            old(st)@,
                            k,
                        ))
                },
            },
    {
        let ghost m0 = st@;
        let ghost me0 = *self;
        let key_raw = Self::serialize_key(key);
        let value_raw = Self::serialize_value(value);
        match self.get_index_raw(st, key_raw.as_slice()) {
            Some(index) => {
                // the key already exists: overwrite its value in place
                let r = self.values.replace(st, index, value);
                proof {
                    let m1 = st@;
                    crate::keys::lemma_agreement_crosses_regions(
                        m0,
                        m1,
                        me0.values_prefix(),
                        me0.keys_prefix(),
                    );
                    crate::keys::lemma_agreement_crosses_regions(
                        m0,
                        m1,
                        me0.values_prefix(),
                        me0.index_prefix(),
                    );
                    self.keys.lemma_stable(m0, m1);
                    assert forall|k: u64| final(self).index_of(m1, k) == me0.index_of(m0, k) by {
                        self.lemma_index_key_region(k);
                        assert(m1.contains_key(self.index_key(k)) == m0.contains_key(
                            self.index_key(k),
                        ));
                        if m0.contains_key(self.index_key(k)) {
                            assert(m1[self.index_key(k)] == m0[self.index_key(k)]);
                        }
                    }
                    assert forall|bk: Seq<u8>|
                        #[trigger] m1.contains_key(bk) && self.index_prefix().is_prefix_of(bk)
                        implies bk.len() == self.index_prefix().len() + 8 && m1[bk].len() == 8 by {
                        assert(m0.contains_key(bk));
                    }
                }
                match r {
                    Ok(previous) => Some(previous),
                    Err(_) => {
                        // impossible: a recorded index is in range
                        None
                    },
                }
            },
            None => {
                // a fresh key: record its position and append to both arrays
                let next_index = self.keys.len();
                let next_index_raw = Self::serialize_index(next_index);
                let index_lookup = self.raw_key_to_index_lookup(key_raw.as_slice());
                st.write(index_lookup.as_slice(), next_index_raw.as_slice());
                let ghost m1 = st@;
                proof {
                    lemma_prefixed(self.index_prefix(), key_raw@);
                    assert(agree_outside_region(m0, m1, me0.index_prefix()));
                    crate::keys::lemma_agreement_crosses_regions(
                        m0,
                        m1,
                        me0.index_prefix(),
                        me0.keys_prefix(),
                    );
                    crate::keys::lemma_agreement_crosses_regions(
                        m0,
                        m1,
                        me0.index_prefix(),
                        me0.values_prefix(),
                    );
                    self.keys.lemma_stable(m0, m1);
                    self.values.lemma_stable(m0, m1);
                }
                self.keys.push(st, key);
                let ghost m2 = st@;
                proof {
                    crate::keys::lemma_agreement_crosses_regions(
                        m1,
                        m2,
                        me0.keys_prefix(),
                        me0.values_prefix(),
                    );
                    crate::keys::lemma_agreement_crosses_regions(
                        m1,
                        m2,
                        me0.keys_prefix(),
                        me0.index_prefix(),
                    );
                    self.values.lemma_stable(m1, m2);
                }
                self.values.push(st, value);
                proof {
                    let m3 = st@;
                    crate::keys::lemma_agreement_crosses_regions(
                        m2,
                        m3,
                        me0.values_prefix(),
                        me0.keys_prefix(),
                    );
                    crate::keys::lemma_agreement_crosses_regions(
                        m2,
                        m3,
                        me0.values_prefix(),
                        me0.index_prefix(),
                    );
                    self.keys.lemma_stable(m2, m3);
                    lemma_auto_spec_u64_to_from_le_bytes();
                    assert(self.keys.view(m3) =~= me0.keys.view(m0).push(key));
                    assert(self.values.view(m3) =~= me0.values.view(m0).push(value));
                    self.lemma_index_key_region(key);
                    assert(m1.contains_key(self.index_key(key)) && m1[self.index_key(key)]
                        == spec_u64_to_le_bytes(next_index));
                    assert(m2.contains_key(self.index_key(key)) && m2[self.index_key(key)]
                        == spec_u64_to_le_bytes(next_index));
                    assert(m3.contains_key(self.index_key(key)));
                    assert(m3[self.index_key(key)] == spec_u64_to_le_bytes(next_index));
                    assert forall|k: u64|
                        k != key implies final(self).index_of(m3, k) == me0.index_of(m0, k) by {
                        self.lemma_index_key_region(k);
                        if self.index_key(k) == self.index_key(key) {
                            lemma_concat_cancel(
                                self.index_prefix(),
                                spec_u64_to_le_bytes(k),
                                spec_u64_to_le_bytes(key),
                            );
                        }
                        assert(m1.contains_key(self.index_key(k)) == m0.contains_key(
                            self.index_key(k),
                        ));
                        assert(m2.contains_key(self.index_key(k)) == m1.contains_key(
                            self.index_key(k),
                        ));
                        assert(m3.contains_key(self.index_key(k)) == m2.contains_key(
                            self.index_key(k),
                        ));
                        if m0.contains_key(self.index_key(k)) {
                            assert(m1[self.index_key(k)] == m0[self.index_key(k)]);
                            assert(m2[self.index_key(k)] == m1[self.index_key(k)]);
                            assert(m3[self.index_key(k)] == m2[self.index_key(k)]);
                        }
                    }
                    assert forall|bk: Seq<u8>|
                        #[trigger] m3.contains_key(bk) && self.index_prefix().is_prefix_of(bk)
                        implies bk.len() == self.index_prefix().len() + 8 && m3[bk].len() == 8 by {
                        assert(m2.contains_key(bk) && m3[bk] == m2[bk]);
                        assert(m1.contains_key(bk) && m2[bk] == m1[bk]);
                        if bk != self.index_key(key) {
                            assert(m0.contains_key(bk) && m1[bk] == m0[bk]);
                        }
                    }
                }
                None
            },
        }
    }

    /// Removes a key.  The last entry of both arrays is swapped into the
    /// vacated position and its index entry re-pointed there.  Returns the
    /// value the key held, if any.
    #[verifier::rlimit(60)]
    #[verifier::spinoff_prover]
    pub fn remove(&mut self, st: &mut Store, key: u64) -> (r: Option<u64>)
        requires
            old(self).wf(old(st)@),
            match old(self).index_of(old(st)@, key) {
                Some(i) => i < old(self).spec_len(),
                None => true,
            },
        ensures
            final(self).wf(final(st)@),
            final(self).index_prefix() == old(self).index_prefix(),
            final(self).keys_prefix() == old(self).keys_prefix(),
            final(self).values_prefix() == old(self).values_prefix(),
            agree_outside_three(
                old(st)@,
                final(st)@,
                old(self).index_prefix(),
                old(self).keys_prefix(),
                old(self).values_prefix(),
            ),
            match old(self).index_of(old(st)@, key) {
                None => final(st)@ == old(st)@ && *final(self) == *old(self) && r == None::<u64>,
                Some(i) => {
                    &&& final(self).keys_view(final(st)@) == old(self).keys_view(old(st)@).update(
                        i as int,
                        old(self).keys_view(old(st)@).last(),
                    ).drop_last()
                    &&& final(self).values_view(final(st)@) == old(self).values_view(
                        old(st)@,
                    ).update(i as int, old(self).values_view(old(st)@).last()).drop_last()
                    &&& r == Some(old(self).values_view(old(st)@)[i as int])
                    &&& final(self).index_of(final(st)@, key) == None::<u64>
                    &&& (forall|k: u64|
                        k != key && k != old(self).keys_view(old(st)@).last()
                            ==> final(self).index_of(final(st)@, k) == old(self).index_of(
                            old(st)@,
                            k,
                        ))
                    &&& (old(self).spec_len() > 1 && old(self).keys_view(old(st)@).last() != key
                        ==> final(self).index_of(
                        final(st)@,
                        old(self).keys_view(old(st)@).last(),
                    ) == Some(i))
                },
            },
    {
        let ghost m0 = st@;
        let ghost me0 = *self;
        let key_raw = Self::serialize_key(key);
        let index_lookup = self.raw_key_to_index_lookup(key_raw.as_slice());
        let index = match self.get_index_raw(st, key_raw.as_slice()) {
            Some(i) => i,
            None => {
                return None;
            },
        };
        let len = self.len();
        let ghost lk = me0.keys_view(m0).last();
        if len == 1 {
            // the only entry: no swap partner exists
            st.remove(index_lookup.as_slice());
        } else {
            let last_key_raw = match self.keys.get_raw(st, len - 1) {
                Some(x) => x,
                None => {
                    return None;
                },
            };
            proof {
                lemma_auto_spec_u64_to_from_le_bytes();
                assert(last_key_raw@ == spec_u64_to_le_bytes(lk));
            }
            st.remove(index_lookup.as_slice());
            if !bytes_eq(last_key_raw.as_slice(), key_raw.as_slice()) {
                // re-point the moved entry's index at the vacated position
                let index_raw = Self::serialize_index(index);
                let last_lookup_key = self.raw_key_to_index_lookup(last_key_raw.as_slice());
                st.write(last_lookup_key.as_slice(), index_raw.as_slice());
            }
        }
        let ghost m2 = st@;
        proof {
            lemma_prefixed(self.index_prefix(), key_raw@);
            lemma_prefixed(self.index_prefix(), spec_u64_to_le_bytes(lk));
            assert(agree_outside_region(m0, m2, me0.index_prefix()));
            crate::keys::lemma_agreement_crosses_regions(
                m0,
                m2,
                me0.index_prefix(),
                me0.keys_prefix(),
            );
            crate::keys::lemma_agreement_crosses_regions(
                m0,
                m2,
                me0.index_prefix(),
                me0.values_prefix(),
            );
            self.keys.lemma_stable(m0, m2);
            self.values.lemma_stable(m0, m2);
        }
        let removed_key = self.keys.swap_remove(st, index);
        let ghost m3 = st@;
        proof {
            crate::keys::lemma_agreement_crosses_regions(
                m2,
                m3,
                me0.keys_prefix(),
                me0.values_prefix(),
            );
            crate::keys::lemma_agreement_crosses_regions(
                m2,
                m3,
                me0.keys_prefix(),
                me0.index_prefix(),
            );
            self.values.lemma_stable(m2, m3);
        }
        let removed_value = self.values.swap_remove(st, index);
        proof {
            let m4 = st@;
            crate::keys::lemma_agreement_crosses_regions(
                m3,
                m4,
                me0.values_prefix(),
                me0.keys_prefix(),
            );
            crate::keys::lemma_agreement_crosses_regions(
                m3,
                m4,
                me0.values_prefix(),
                me0.index_prefix(),
            );
            self.keys.lemma_stable(m3, m4);
            lemma_auto_spec_u64_to_from_le_bytes();
            assert(self.keys.view(m4) =~= me0.keys.view(m0).update(
                index as int,
                me0.keys.view(m0).last(),
            ).drop_last());
            assert(self.values.view(m4) =~= me0.values.view(m0).update(
                index as int,
                me0.values.view(m0).last(),
            ).drop_last());
            // the index region after the dance
            self.lemma_index_key_region(key);
            assert(!m4.contains_key(self.index_key(key))) by {
                assert(m2.contains_key(self.index_key(key)) == m4.contains_key(
                    self.index_key(key),
                ));
                if me0.spec_len() > 1 && lk != key {
                    if self.index_key(lk) == self.index_key(key) {
                        lemma_concat_cancel(
                            self.index_prefix(),
                            spec_u64_to_le_bytes(lk),
                            spec_u64_to_le_bytes(key),
                        );
                    }
                }
            }
            assert forall|k: u64| k != key && k != lk implies final(self).index_of(m4, k)
                == me0.index_of(m0, k) by {
                self.lemma_index_key_region(k);
                if self.index_key(k) == self.index_key(key) {
                    lemma_concat_cancel(
                        self.index_prefix(),
                        spec_u64_to_le_bytes(k),
                        spec_u64_to_le_bytes(key),
                    );
                }
                if self.index_key(k) == self.index_key(lk) {
                    lemma_concat_cancel(
                        self.index_prefix(),
                        spec_u64_to_le_bytes(k),
                        spec_u64_to_le_bytes(lk),
                    );
                }
                assert(m2.contains_key(self.index_key(k)) == m4.contains_key(self.index_key(k)));
                if m2.contains_key(self.index_key(k)) {
                    assert(m4[self.index_key(k)] == m2[self.index_key(k)]);
                }
            }
            if me0.spec_len() > 1 && lk != key {
                assert(m2.contains_key(self.index_key(lk)) && m2[self.index_key(lk)]
                    == spec_u64_to_le_bytes(index));
                assert(m4.contains_key(self.index_key(lk)) && m4[self.index_key(lk)]
                    == spec_u64_to_le_bytes(index));
            }
            assert forall|bk: Seq<u8>|
                #[trigger] m4.contains_key(bk) && self.index_prefix().is_prefix_of(bk)
                implies bk.len() == self.index_prefix().len() + 8 && m4[bk].len() == 8 by {
                assert(m3.contains_key(bk));
                assert(m3[bk] == m4[bk]);
                assert(m2.contains_key(bk));
                assert(m2[bk] == m3[bk]);
                if me0.spec_len() > 1 && lk != key && bk == self.index_key(lk) {
                } else {
                    assert(m0.contains_key(bk) && m2[bk] == m0[bk]);
                }
            }
        }
        match (removed_key, removed_value) {
            (Ok(_), Ok(v)) => Some(v),
            _ => {
                // impossible: a recorded index is in range
                None
            },
        }
    }

    /// Inserts a serialized key-value pair (eight bytes each under this
    /// crate's codec), returning the serialized value it displaced, if any.
    pub fn insert_raw(&mut self, st: &mut Store, key_raw: &[u8], value_raw: &[u8]) -> (r: Option<
        Vec<u8>,
    >)
        requires
            old(self).wf(old(st)@),
            key_raw@.len() == 8,
            value_raw@.len() == 8,
            old(self).spec_len() < u64::MAX,
            match old(self).index_of(old(st)@, spec_u64_from_le_bytes(key_raw@)) {
                Some(i) => i < old(self).spec_len(),
                None => true,
            },
        ensures
            final(self).wf(final(st)@),
            final(self).index_prefix() == old(self).index_prefix(),
            final(self).keys_prefix() == old(self).keys_prefix(),
            final(self).values_prefix() == old(self).values_prefix(),
            agree_outside_three(
                old(st)@,
                final(st)@,
                old(self).index_prefix(),
                old(self).keys_prefix(),
                old(self).values_prefix(),
            ),
            match old(self).index_of(old(st)@, spec_u64_from_le_bytes(key_raw@)) {
                Some(i) => final(self).values_view(final(st)@) == old(self).values_view(
                    old(st)@,
                ).update(i as int, spec_u64_from_le_bytes(value_raw@)) && (r matches Some(v)
                    && v@ == spec_u64_to_le_bytes(old(self).values_view(old(st)@)[i as int])),
                None => final(self).keys_view(final(st)@) == old(self).keys_view(old(st)@).push(
                    spec_u64_from_le_bytes(key_raw@),
                ) && final(self).values_view(final(st)@) == old(self).values_view(old(st)@).push(
                    spec_u64_from_le_bytes(value_raw@),
                ) && r is None,
            },
    {
        proof {
            lemma_auto_spec_u64_to_from_le_bytes();
        }
        let k = u64_from_le_bytes(key_raw);
        let v = u64_from_le_bytes(value_raw);
        match self.insert(st, k, v) {
            Some(previous) => Some(Self::serialize_value(previous)),
            None => None,
        }
    }

    /// Removes a serialized key (eight bytes under this crate's codec),
    /// returning the serialized value it displaced, if any.
    pub fn remove_raw(&mut self, st: &mut Store, key_raw: &[u8]) -> (r: Option<Vec<u8>>)
        requires
            old(self).wf(old(st)@),
            key_raw@.len() == 8,
            match old(self).index_of(old(st)@, spec_u64_from_le_bytes(key_raw@)) {
                Some(i) => i < old(self).spec_len(),
                None => true,
            },
        ensures
            final(self).wf(final(st)@),
            final(self).index_prefix() == old(self).index_prefix(),
            final(self).keys_prefix() == old(self).keys_prefix(),
            final(self).values_prefix() == old(self).values_prefix(),
            agree_outside_three(
                old(st)@,
                final(st)@,
                old(self).index_prefix(),
                old(self).keys_prefix(),
                old(self).values_prefix(),
            ),
            match old(self).index_of(old(st)@, spec_u64_from_le_bytes(key_raw@)) {
                None => final(st)@ == old(st)@ && *final(self) == *old(self) && r is None,
                Some(i) => {
                    let key = spec_u64_from_le_bytes(key_raw@);
                    &&& (r matches Some(v) && v@ == spec_u64_to_le_bytes(
                        old(self).values_view(old(st)@)[i as int],
                    ))
                    &&& final(self).keys_view(final(st)@) == old(self).keys_view(old(st)@).update(
                        i as int,
                        old(self).keys_view(old(st)@).last(),
                    ).drop_last()
                    &&& final(self).values_view(final(st)@) == old(self).values_view(
                        old(st)@,
                    ).update(i as int, old(self).values_view(old(st)@).last()).drop_last()
                    &&& final(self).index_of(final(st)@, key) == None::<u64>
                    &&& (forall|k: u64|
                        k != key && k != old(self).keys_view(old(st)@).last()
                            ==> final(self).index_of(final(st)@, k) == old(self).index_of(
                            old(st)@,
                            k,
                        ))
                    &&& (old(self).spec_len() > 1 && old(self).keys_view(old(st)@).last() != key
                        ==> final(self).index_of(
                        final(st)@,
                        old(self).keys_view(old(st)@).last(),
                    ) == Some(i))
                },
            },
    {
        proof {
            lemma_auto_spec_u64_to_from_le_bytes();
        }
        let k = u64_from_le_bytes(key_raw);
        match self.remove(st, k) {
            Some(previous) => Some(Self::serialize_value(previous)),
            None => None,
        }
    }

    /// Deletes every entry in all three regions.
    pub fn clear(&mut self, st: &mut Store)
        requires
            old(self).wf(old(st)@),
        ensures
            final(self).wf(final(st)@),
            final(self).index_prefix() == old(self).index_prefix(),
            final(self).keys_prefix() == old(self).keys_prefix(),
            final(self).values_prefix() == old(self).values_prefix(),
            final(self).spec_len() == 0,
            agree_outside_three(
                old(st)@,
                final(st)@,
                old(self).index_prefix(),
                old(self).keys_prefix(),
                old(self).values_prefix(),
            ),
            forall|k: u64|
                old(self).keys_view(old(st)@).contains(k) ==> final(self).index_of(final(st)@, k)
                    == None::<u64>,
    {
        let ghost m0 = st@;
        let ghost me0 = *self;
        let n = self.keys.len();
        let mut i: u64 = 0;
        while i < n
            invariant
                *self == *old(self),
                me0 == *old(self),
                me0.wf(m0),
                n == self.spec_len(),
                i <= n,
                self.wf(st@),
                self.keys_view(st@) == me0.keys_view(m0),
                self.values_view(st@) == me0.values_view(m0),
                agree_outside_region(m0, st@, me0.index_prefix()),
                forall|j: int| 0 <= j < i ==> self.index_of(
                    st@,
                    #[trigger] me0.keys_view(m0)[j],
                ) == None::<u64>,
            decreases n - i,
        {
            let ghost m_pre = st@;
            let key = match self.keys.get(st, i) {
                Some(k) => k,
                None => {
                    // unreachable: `i` is a live index
                    0
                },
            };
            let key_raw = Self::serialize_key(key);
            let index_lookup = self.raw_key_to_index_lookup(key_raw.as_slice());
            st.remove(index_lookup.as_slice());
            proof {
                lemma_prefixed(self.index_prefix(), key_raw@);
                crate::keys::lemma_agreement_crosses_regions(
                    m_pre,
                    st@,
                    me0.index_prefix(),
                    me0.keys_prefix(),
                );
                crate::keys::lemma_agreement_crosses_regions(
                    m_pre,
                    st@,
                    me0.index_prefix(),
                    me0.values_prefix(),
                );
                self.keys.lemma_stable(m_pre, st@);
                self.values.lemma_stable(m_pre, st@);
                crate::keys::lemma_agree_outside_trans(m0, m_pre, st@, me0.index_prefix());
                assert forall|bk: Seq<u8>|
                    #[trigger] st@.contains_key(bk) && self.index_prefix().is_prefix_of(bk)
                    implies bk.len() == self.index_prefix().len() + 8 && st@[bk].len() == 8 by {
                    assert(m_pre.contains_key(bk) && st@[bk] == m_pre[bk]);
                }
                assert forall|j: int| 0 <= j < i + 1 implies self.index_of(
                    st@,
                    #[trigger] me0.keys_view(m0)[j],
                ) == None::<u64> by {
                    let kj = me0.keys_view(m0)[j];
                    self.lemma_index_key_region(kj);
                    if j < i {
                        assert(self.index_of(m_pre, kj) is None);
                        if self.index_key(kj) != self.index_key(key) {
                            assert(st@.contains_key(self.index_key(kj)) == m_pre.contains_key(
                                self.index_key(kj),
                            ));
                        }
                    } else {
                        assert(kj == key);
                    }
                }
            }
            i = i + 1;
        }
        let ghost m_mid = st@;
        self.keys.clear(st);
        let ghost m_k = st@;
        proof {
            crate::keys::lemma_agreement_crosses_regions(
                m_mid,
                m_k,
                me0.keys_prefix(),
                me0.values_prefix(),
            );
            crate::keys::lemma_agreement_crosses_regions(
                m_mid,
                m_k,
                me0.keys_prefix(),
                me0.index_prefix(),
            );
            self.values.lemma_stable(m_mid, m_k);
        }
        self.values.clear(st);
        proof {
            let m_v = st@;
            crate::keys::lemma_agreement_crosses_regions(
                m_k,
                m_v,
                me0.values_prefix(),
                me0.keys_prefix(),
            );
            crate::keys::lemma_agreement_crosses_regions(
                m_k,
                m_v,
                me0.values_prefix(),
                me0.index_prefix(),
            );
            self.keys.lemma_stable(m_k, m_v);
            assert forall|bk: Seq<u8>|
                #[trigger] m_v.contains_key(bk) && self.index_prefix().is_prefix_of(bk)
                implies bk.len() == self.index_prefix().len() + 8 && m_v[bk].len() == 8 by {
                assert(m_k.contains_key(bk) && m_v[bk] == m_k[bk]);
                assert(m_mid.contains_key(bk) && m_k[bk] == m_mid[bk]);
            }
            assert forall|k: u64|
                me0.keys_view(m0).contains(k) implies final(self).index_of(m_v, k)
                == None::<u64> by {
                let j = choose|j: int|
                    0 <= j < me0.keys_view(m0).len() && me0.keys_view(m0)[j] == k;
                assert(self.index_of(m_mid, k) is None);
                self.lemma_index_key_region(k);
                assert(m_k.contains_key(self.index_key(k)) == m_mid.contains_key(
                    self.index_key(k),
                ));
                assert(m_v.contains_key(self.index_key(k)) == m_k.contains_key(
                    self.index_key(k),
                ));
            }
        }
    }

    /// Copies the entries into a `Vec` of pairs, in storage order.
    pub fn to_vec(&self, st: &Store) -> (r: Vec<(u64, u64)>)
        requires
            self.wf(st@),
        ensures
            r@ == self.keys_view(st@).zip_with(self.values_view(st@)),
    {
        let ks = self.keys.iter(st);
        let vs = self.values.iter(st);
        let n = ks.len();
        let mut out: Vec<(u64, u64)> = Vec::new();
        let mut i: usize = 0;
        while i < n
            invariant
                n == ks@.len(),
                ks@.len() == vs@.len(),
                i <= n,
                out@ =~= ks@.zip_with(vs@).take(i as int),
            decreases n - i,
        {
            out.push((ks[i], vs[i]));
            proof {
                assert(out@ =~= ks@.zip_with(vs@).take(i + 1));
            }
            i = i + 1;
        }
        proof {
            assert(ks@.zip_with(vs@).take(n as int) =~= ks@.zip_with(vs@));
            assert(out@ =~= self.keys_view(st@).zip_with(self.values_view(st@)));
        }
        out
    }

    /// Copies the keys into a `Vec`, in storage order.
    pub fn keys(&self, st: &Store) -> (r: Vec<u64>)
        requires
            self.wf(st@),
        ensures
            r@ == self.keys_view(st@),
    {
        self.keys.iter(st)
    }

    /// Copies the values into a `Vec`, in storage order.
    pub fn values(&self, st: &Store) -> (r: Vec<u64>)
        requires
            self.wf(st@),
        ensures
            r@ == self.values_view(st@),
    {
        self.values.iter(st)
    }

    /// Copies the entries into a `Vec` of pairs, in storage order.
    pub fn iter(&self, st: &Store) -> (r: Vec<(u64, u64)>)
        requires
            self.wf(st@),
        ensures
            r@ == self.keys_view(st@).zip_with(self.values_view(st@)),
    {
        self.to_vec(st)
    }

    /// Inserts every pair of `entries`, in order.
    pub fn extend(&mut self, st: &mut Store, entries: &Vec<(u64, u64)>)
        requires
            old(self).wf(old(st)@),
            old(self).spec_len() + entries@.len() < u64::MAX,
        ensures
            final(self).wf(final(st)@),
            final(self).index_prefix() == old(self).index_prefix(),
            final(self).keys_prefix() == old(self).keys_prefix(),
            final(self).values_prefix() == old(self).values_prefix(),
            agree_outside_three(
                old(st)@,
                final(st)@,
                old(self).index_prefix(),
                old(self).keys_prefix(),
                old(self).values_prefix(),
            ),
    {
        let n = entries.len();
        let mut i: usize = 0;
        while i < n
            invariant
                n == entries@.len(),
                i <= n,
                self.index_prefix() == old(self).index_prefix(),
                self.keys_prefix() == old(self).keys_prefix(),
                self.values_prefix() == old(self).values_prefix(),
                self.wf(st@),
                self.spec_len() + (entries@.len() - i) < u64::MAX,
                agree_outside_three(
                    old(st)@,
                    st@,
                    old(self).index_prefix(),
                    old(self).keys_prefix(),
                    old(self).values_prefix(),
                ),
            decreases n - i,
        {
            let ghost m_pre = st@;
            let (el_key, el_value) = entries[i];
            let key_raw = Self::serialize_key(el_key);
            let recorded = self.get_index_raw(st, key_raw.as_slice());
            match recorded {
                Some(index) => {
                    if index < self.keys.len() {
                        self.insert(st, el_key, el_value);
                    }
                    // an out-of-range recorded position marks a corrupted
                    // store; the entry is left alone
                },
                None => {
                    self.insert(st, el_key, el_value);
                },
            }
            proof {
                assert forall|k: Seq<u8>|
                    !old(self).index_prefix().is_prefix_of(k) && !old(
                        self,
                    ).keys_prefix().is_prefix_of(k) && !old(self).values_prefix().is_prefix_of(k)
                    implies (#[trigger] old(st)@.contains_key(k)) == st@.contains_key(k) && (old(
                    st,
                )@.contains_key(k) ==> old(st)@[k] == st@[k]) by {
                    assert(old(st)@.contains_key(k) == m_pre.contains_key(k));
                    if old(st)@.contains_key(k) {
                        assert(old(st)@[k] == m_pre[k]);
                    }
                }
            }
            i = i + 1;
        }
    }

    /// A view of the keys array, for random access.
    pub fn keys_as_vector(&self) -> (r: &Vector)
        ensures
            *r == self.keys_vector(),
    {
        &self.keys
    }

    /// A view of the values array, for random access.
    pub fn values_as_vector(&self) -> (r: &Vector)
        ensures
            *r == self.values_vector(),
    {
        &self.values
    }

    /// The keys array itself.
    pub closed spec fn keys_vector(self) -> Vector {
        self.keys
    }

    /// The values array itself.
    pub closed spec fn values_vector(self) -> Vector {
        self.values
    }

    /// Keys of the index region lie in it.
    proof fn lemma_index_key_region(self, k: u64)
        ensures
            self.index_prefix().is_prefix_of(self.index_key(k)),
    {
        lemma_prefixed(self.index_prefix(), spec_u64_to_le_bytes(k));
    }

}

} // verus!
