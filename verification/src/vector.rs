//! An appendable, index-addressed array persisted in the byte store.
//!
//! Element `i` lives under the backend key `prefix ‖ le(i)`, where `le` is the
//! little-endian eight-byte encoding of the index.  Live indices are exactly
//! `0 .. len`: `pop_raw` and `swap_remove_raw` keep the range dense.

use vstd::prelude::*;
use vstd::bytes::u64_to_le_bytes;
use vstd::bytes::spec_u64_to_le_bytes;
use vstd::bytes::spec_u64_from_le_bytes;
use vstd::bytes::lemma_auto_spec_u64_to_from_le_bytes;

use crate::error::Error;
use crate::keys::agree_outside_region;
use crate::keys::append_slice;
use crate::keys::lemma_concat_cancel;
use crate::keys::lemma_prefixed;
use crate::store::Store;

verus! {

/// A dense sequence of byte strings stored under `prefix ‖ le(index)` keys.
pub struct Vector {
    len: u64,
    prefix: Vec<u8>,
}

impl Vector {
    /// The key prefix of the region this vector owns.
    pub closed spec fn spec_prefix(self) -> Seq<u8> {
        self.prefix@
    }

    /// The number of elements.
    pub closed spec fn spec_len(self) -> u64 {
        self.len
    }

    /// The backend key of index `i`.
    pub open spec fn key_at(self, i: u64) -> Seq<u8> {
        self.spec_prefix() + spec_u64_to_le_bytes(i)
    }

    /// Whether a backend key belongs to this vector's region.
    pub open spec fn in_region(self, k: Seq<u8>) -> bool {
        self.spec_prefix().is_prefix_of(k)
    }

    /// Well-formedness of the region: an entry exists for every live index,
    /// and nothing else lives under this prefix.
    pub open spec fn wf(self, m: Map<Seq<u8>, Seq<u8>>) -> bool {
        &&& forall|i: u64| i < self.spec_len() ==> m.contains_key(#[trigger] self.key_at(i))
        &&& forall|k: Seq<u8>|
            #[trigger] m.contains_key(k) && self.in_region(k) ==> exists|i: u64|
                i < self.spec_len() && k == self.key_at(i)
    }

    /// The stored elements, as a sequence of byte strings.
    pub open spec fn raw_view(self, m: Map<Seq<u8>, Seq<u8>>) -> Seq<Seq<u8>> {
        Seq::new(self.spec_len() as nat, |i: int| m[self.key_at(i as u64)])
    }

    /// Keys of live indices lie in the region.
    pub proof fn lemma_key_at_region(self, i: u64)
        ensures
            self.in_region(self.key_at(i)),
    {
        lemma_prefixed(self.spec_prefix(), spec_u64_to_le_bytes(i));
    }

    /// Index keys are distinct for distinct indices.
    pub proof fn lemma_key_at_injective(self, i: u64, j: u64)
        requires
            self.key_at(i) == self.key_at(j),
        ensures
            i == j,
    {
        lemma_concat_cancel(
            self.spec_prefix(),
            spec_u64_to_le_bytes(i),
            spec_u64_to_le_bytes(j),
        );
        lemma_auto_spec_u64_to_from_le_bytes();
    }

    /// A change confined to other regions leaves this vector unchanged.
    pub proof fn lemma_stable(self, m0: Map<Seq<u8>, Seq<u8>>, m1: Map<Seq<u8>, Seq<u8>>)
        requires
            crate::keys::agree_on_region(m0, m1, self.spec_prefix()),
            self.wf(m0),
        ensures
            self.wf(m1),
            self.raw_view(m1) == self.raw_view(m0),
    {
        assert forall|i: u64| i < self.spec_len() implies m1.contains_key(
            #[trigger] self.key_at(i),
        ) by {
            self.lemma_key_at_region(i);
            assert(m0.contains_key(self.key_at(i)));
        }
        assert forall|k: Seq<u8>| #[trigger] m1.contains_key(k) && self.in_region(k)
            implies exists|i: u64| i < self.spec_len() && k == self.key_at(i) by {
            assert(m0.contains_key(k));
        }
        assert forall|i: int| 0 <= i < self.spec_len() implies self.raw_view(m1)[i]
            == self.raw_view(m0)[i] by {
            self.lemma_key_at_region(i as u64);
            assert(m0.contains_key(self.key_at(i as u64)));
        }
        assert(self.raw_view(m1) =~= self.raw_view(m0));
    }

    /// Returns the number of elements in the vector.
    pub fn len(&self) -> (r: u64)
        ensures
            r == self.spec_len(),
    {
        self.len
    }

    /// Returns `true` if the vector contains no elements.
    pub fn is_empty(&self) -> (r: bool)
        ensures
            r == (self.spec_len() == 0),
    {
        self.len == 0
    }

    /// Creates a vector with zero elements owning the region of `id`.
    pub fn new(id: Vec<u8>) -> (r: Self)
        ensures
            r.spec_len() == 0,
            r.spec_prefix() == id@,
    {
        Self { len: 0, prefix: id }
    }

    fn index_to_lookup_key(&self, index: u64) -> (r: Vec<u8>)
        ensures
            r@ == self.key_at(index),
    {
        let b = u64_to_le_bytes(index);
        append_slice(self.prefix.as_slice(), b.as_slice())
    }

    /// Returns the serialized element at `index`, or `None` if `index` is out
    /// of bounds.
    pub fn get_raw(&self, st: &Store, index: u64) -> (r: Option<Vec<u8>>)
        requires
            self.wf(st@),
        ensures
            match r {
                Some(b) => index < self.spec_len() && b@ == self.raw_view(st@)[index as int],
                None => index >= self.spec_len(),
            },
    {
        if index >= self.len {
            return None;
        }
        let lookup_key = self.index_to_lookup_key(index);
        match st.read(lookup_key.as_slice()) {
            Some(raw_element) => Some(raw_element),
            None => {
                // impossible: `wf` guarantees an entry for every live index
                proof {
                    assert(st@.contains_key(self.key_at(index)));
                }
                None
            },
        }
    }

    /// Appends a serialized element at index `len`.
    pub fn push_raw(&mut self, st: &mut Store, raw_element: &[u8])
        requires
            old(self).wf(old(st)@),
            old(self).spec_len() < u64::MAX,
        ensures
            final(self).spec_prefix() == old(self).spec_prefix(),
            final(self).spec_len() == old(self).spec_len() + 1,
            final(self).wf(final(st)@),
            final(self).raw_view(final(st)@) == old(self).raw_view(old(st)@).push(
                raw_element@,
            ),
            agree_outside_region(old(st)@, final(st)@, old(self).spec_prefix()),
    {
        let ghost m0 = st@;
        let ghost v0 = *self;
        let lookup_key = self.index_to_lookup_key(self.len);
        st.write(lookup_key.as_slice(), raw_element);
        self.len = self.len + 1;
        proof {
            let m1 = st@;
            let v1 = *self;
            assert forall|i: u64| i < v1.spec_len() implies m1.contains_key(
                #[trigger] v1.key_at(i),
            ) by {
                if i < v0.spec_len() {
                    assert(m0.contains_key(v0.key_at(i)));
                }
            }
            assert forall|k: Seq<u8>| #[trigger] m1.contains_key(k) && v1.in_region(k) implies exists|
                i: u64,
            | i < v1.spec_len() && k == v1.key_at(i) by {
                if k == v0.key_at(v0.spec_len()) {
                    assert(v1.spec_len() - 1 < v1.spec_len() && k == v1.key_at(
                        (v1.spec_len() - 1) as u64,
                    ));
                } else {
                    assert(m0.contains_key(k));
                    let i = choose|i: u64| i < v0.spec_len() && k == v0.key_at(i);
                    assert(i < v1.spec_len() && k == v1.key_at(i));
                }
            }
            assert(v1.raw_view(m1) =~= v0.raw_view(m0).push(raw_element@)) by {
                assert forall|i: int| 0 <= i < v1.spec_len() implies v1.raw_view(m1)[i]
                    == v0.raw_view(m0).push(raw_element@)[i] by {
                    if i < v0.spec_len() {
                        if v0.key_at(i as u64) == v0.key_at(v0.spec_len()) {
                            v0.lemma_key_at_injective(i as u64, v0.spec_len());
                        }
                    }
                }
            }
            v0.lemma_key_at_region(v0.spec_len());
        }
    }

    /// Removes and returns the highest-indexed element, or `None` if empty.
    pub fn pop_raw(&mut self, st: &mut Store) -> (r: Option<Vec<u8>>)
        requires
            old(self).wf(old(st)@),
        ensures
            final(self).spec_prefix() == old(self).spec_prefix(),
            final(self).wf(final(st)@),
            agree_outside_region(old(st)@, final(st)@, old(self).spec_prefix()),
            match r {
                Some(b) => old(self).spec_len() > 0 && b@ == old(self).raw_view(old(st)@).last()
                    && final(self).spec_len() == old(self).spec_len() - 1 && final(self).raw_view(
                    final(st)@,
                ) == old(self).raw_view(old(st)@).drop_last(),
                None => old(self).spec_len() == 0 && final(st)@ == old(st)@ && final(self).spec_len()
                    == 0,
            },
    {
        if self.len == 0 {
            return None;
        }
        let ghost m0 = st@;
        let ghost v0 = *self;
        let last_index = self.len - 1;
        let last_lookup_key = self.index_to_lookup_key(last_index);
        self.len = last_index;
        let evicted = st.remove(last_lookup_key.as_slice());
        proof {
            let m1 = st@;
            let v1 = *self;
            assert(m0.contains_key(v0.key_at(last_index)));
            assert forall|i: u64| i < v1.spec_len() implies m1.contains_key(
                #[trigger] v1.key_at(i),
            ) by {
                assert(m0.contains_key(v0.key_at(i)));
                if v0.key_at(i) == v0.key_at(last_index) {
                    v0.lemma_key_at_injective(i, last_index);
                }
            }
            assert forall|k: Seq<u8>| #[trigger] m1.contains_key(k) && v1.in_region(k) implies exists|
                i: u64,
            | i < v1.spec_len() && k == v1.key_at(i) by {
                assert(m0.contains_key(k));
                let i = choose|i: u64| i < v0.spec_len() && k == v0.key_at(i);
                if i == last_index {
                    assert(!m1.contains_key(v0.key_at(last_index)));
                }
                assert(i < v1.spec_len() && k == v1.key_at(i));
            }
            assert(v1.raw_view(m1) =~= v0.raw_view(m0).drop_last()) by {
                assert forall|i: int| 0 <= i < v1.spec_len() implies v1.raw_view(m1)[i]
                    == v0.raw_view(m0).drop_last()[i] by {
                    if v0.key_at(i as u64) == v0.key_at(last_index) {
                        v0.lemma_key_at_injective(i as u64, last_index);
                    }
                }
            }
            v0.lemma_key_at_region(last_index);
        }
        match evicted {
            Some(x) => Some(x),
            None => {
                // impossible: the entry for the last index is present
                None
            },
        }
    }

    /// Overwrites `index` with a serialized element and returns the bytes
    /// that were there; fails with `OutOfBounds` if `index >= len`.
    pub fn replace_raw(&mut self, st: &mut Store, index: u64, raw_element: &[u8]) -> (r: Result<
        Vec<u8>,
        Error,
    >)
        requires
            old(self).wf(old(st)@),
        ensures
            *final(self) == *old(self),
            final(self).wf(final(st)@),
            agree_outside_region(old(st)@, final(st)@, old(self).spec_prefix()),
            match r {
                Ok(b) => index < old(self).spec_len() && b@ == old(self).raw_view(old(st)@)[
                    index as int] && final(self).raw_view(final(st)@) == old(self).raw_view(
                    old(st)@,
                ).update(index as int, raw_element@),
                Err(e) => e == Error::OutOfBounds && index >= old(self).spec_len() && final(st)@
                    == old(st)@,
            },
    {
        if index >= self.len {
            return Err(Error::OutOfBounds);
        }
        let ghost m0 = st@;
        let ghost v0 = *self;
        let lookup_key = self.index_to_lookup_key(index);
        let evicted = st.write(lookup_key.as_slice(), raw_element);
        proof {
            let m1 = st@;
            assert(m0.contains_key(v0.key_at(index)));
            assert forall|i: u64| i < v0.spec_len() implies m1.contains_key(
                #[trigger] v0.key_at(i),
            ) by {
                assert(m0.contains_key(v0.key_at(i)));
            }
            assert forall|k: Seq<u8>| #[trigger] m1.contains_key(k) && v0.in_region(k) implies exists|
                i: u64,
            | i < v0.spec_len() && k == v0.key_at(i) by {
                if k != v0.key_at(index) {
                    assert(m0.contains_key(k));
                }
            }
            assert(v0.raw_view(m1) =~= v0.raw_view(m0).update(index as int, raw_element@)) by {
                assert forall|i: int| 0 <= i < v0.spec_len() implies v0.raw_view(m1)[i]
                    == v0.raw_view(m0).update(index as int, raw_element@)[i] by {
                    if i != index && v0.key_at(i as u64) == v0.key_at(index) {
                        v0.lemma_key_at_injective(i as u64, index);
                    }
                }
            }
            v0.lemma_key_at_region(index);
        }
        match evicted {
            Some(x) => Ok(x),
            None => {
                // impossible: the entry for a live index is present
                Err(Error::InconsistentState)
            },
        }
    }

    /// Removes the element at `index` by moving the last element into its
    /// place, returning the removed bytes; fails with `OutOfBounds` if
    /// `index >= len`.
    pub fn swap_remove_raw(&mut self, st: &mut Store, index: u64) -> (r: Result<Vec<u8>, Error>)
        requires
            old(self).wf(old(st)@),
        ensures
            final(self).spec_prefix() == old(self).spec_prefix(),
            final(self).wf(final(st)@),
            agree_outside_region(old(st)@, final(st)@, old(self).spec_prefix()),
            match r {
                Ok(b) => index < old(self).spec_len() && b@ == old(self).raw_view(old(st)@)[
                    index as int] && final(self).spec_len() == old(self).spec_len() - 1
                    && final(self).raw_view(final(st)@) == old(self).raw_view(old(st)@).update(
                    index as int,
                    old(self).raw_view(old(st)@).last(),
                ).drop_last(),
                Err(e) => e == Error::OutOfBounds && index >= old(self).spec_len() && final(st)@
                    == old(st)@ && *final(self) == *old(self),
            },
    {
        if index >= self.len {
            return Err(Error::OutOfBounds);
        }
        let ghost m0 = st@;
        let ghost v0 = *self;
        if index + 1 == self.len {
            let r = self.pop_raw(st);
            proof {
                assert(v0.raw_view(m0).update(index as int, v0.raw_view(m0).last()).drop_last()
                    =~= v0.raw_view(m0).drop_last());
            }
            match r {
                Some(x) => {
                    proof {
                        assert(x@ == v0.raw_view(m0)[index as int]);
                    }
                    Ok(x)
                },
                None => Err(Error::InconsistentState),
            }
        } else {
            let lookup_key = self.index_to_lookup_key(index);
            let popped = self.pop_raw(st);
            match popped {
                Some(raw_last_value) => {
                    let ghost m1 = st@;
                    let ghost v1 = *self;
                    let evicted = st.write(lookup_key.as_slice(), raw_last_value.as_slice());
                    proof {
                        let m2 = st@;
                        assert(index < v1.spec_len());
                        assert(m1.contains_key(v1.key_at(index)));
                        assert forall|i: u64| i < v1.spec_len() implies m2.contains_key(
                            #[trigger] v1.key_at(i),
                        ) by {
                            assert(m1.contains_key(v1.key_at(i)));
                        }
                        assert forall|k: Seq<u8>|
                            #[trigger] m2.contains_key(k) && v1.in_region(k) implies exists|i: u64|
                            i < v1.spec_len() && k == v1.key_at(i) by {
                            if k != v1.key_at(index) {
                                assert(m1.contains_key(k));
                            }
                        }
                        assert(v1.raw_view(m1) == v0.raw_view(m0).drop_last());
                        assert(v1.raw_view(m2) =~= v0.raw_view(m0).update(
                            index as int,
                            v0.raw_view(m0).last(),
                        ).drop_last()) by {
                            assert forall|i: int| 0 <= i < v1.spec_len() implies v1.raw_view(m2)[i]
                                == v0.raw_view(m0).update(
                                index as int,
                                v0.raw_view(m0).last(),
                            ).drop_last()[i] by {
                                if i == index {
                                    assert(m2[v1.key_at(index)] == raw_last_value@);
                                    assert(v1.raw_view(m2)[i] == raw_last_value@);
                                    assert(raw_last_value@ == v0.raw_view(m0).last());
                                } else {
                                    if v1.key_at(i as u64) == v1.key_at(index) {
                                        v1.lemma_key_at_injective(i as u64, index);
                                    }
                                    assert(m2[v1.key_at(i as u64)] == m1[v1.key_at(i as u64)]);
                                    assert(v1.raw_view(m2)[i] == v1.raw_view(m1)[i]);
                                    assert(v1.raw_view(m1)[i] == v0.raw_view(m0)[i]);
                                }
                            }
                        }
                        v1.lemma_key_at_region(index);
                    }
                    match evicted {
                        Some(x) => {
                            proof {
                                assert(x@ == m1[v1.key_at(index)]);
                                assert(v1.raw_view(m1)[index as int] == m1[v1.key_at(index)]);
                                assert(v1.raw_view(m1)[index as int] == v0.raw_view(m0)[
                                    index as int]);
                            }
                            Ok(x)
                        },
                        None => Err(Error::InconsistentState),
                    }
                },
                None => Err(Error::InconsistentState),
            }
        }
    }

    /// Iterates over the raw serialized elements, collecting them in index
    /// order.
    pub fn iter_raw(&self, st: &Store) -> (r: Vec<Vec<u8>>)
        requires
            self.wf(st@),
        ensures
            r@.map_values(|b: Vec<u8>| b@) == self.raw_view(st@),
    {
        let n = self.len;
        let mut out: Vec<Vec<u8>> = Vec::new();
        let mut i: u64 = 0;
        while i < n
            invariant
                self.wf(st@),
                n == self.spec_len(),
                i <= n,
                out@.len() == i,
                out@.map_values(|b: Vec<u8>| b@) =~= self.raw_view(st@).take(i as int),
            decreases n - i,
        {
            match self.get_raw(st, i) {
                Some(raw_element) => {
                    out.push(raw_element);
                },
                None => {
                    // impossible: `i` is a live index
                },
            }
            proof {
                assert(out@.map_values(|b: Vec<u8>| b@) =~= self.raw_view(st@).take(i + 1));
            }
            i = i + 1;
        }
        proof {
            assert(self.raw_view(st@).take(n as int) =~= self.raw_view(st@));
        }
        out
    }

    /// Appends each element of `elements`, in order.
    pub fn extend_raw(&mut self, st: &mut Store, elements: &Vec<Vec<u8>>)
        requires
            old(self).wf(old(st)@),
            old(self).spec_len() + elements@.len() < u64::MAX,
        ensures
            final(self).spec_prefix() == old(self).spec_prefix(),
            final(self).wf(final(st)@),
            final(self).raw_view(final(st)@) == old(self).raw_view(old(st)@) + elements@.map_values(
                |b: Vec<u8>| b@,
            ),
            agree_outside_region(old(st)@, final(st)@, old(self).spec_prefix()),
    {
        let n = elements.len();
        let mut i: usize = 0;
        while i < n
            invariant
                n == elements@.len(),
                i <= n,
                self.spec_prefix() == old(self).spec_prefix(),
                self.wf(st@),
                self.spec_len() == old(self).spec_len() + i,
                old(self).spec_len() + elements@.len() < u64::MAX,
                self.raw_view(st@) =~= old(self).raw_view(old(st)@) + elements@.take(
                    i as int,
                ).map_values(|b: Vec<u8>| b@),
                agree_outside_region(old(st)@, st@, old(self).spec_prefix()),
            decreases n - i,
        {
            let ghost m0 = st@;
            let ghost v0 = *self;
            self.push_raw(st, elements[i].as_slice());
            proof {
                assert(self.raw_view(st@) =~= old(self).raw_view(old(st)@) + elements@.take(
                    i + 1,
                ).map_values(|b: Vec<u8>| b@));
                crate::keys::lemma_agree_outside_trans(
                    old(st)@,
                    m0,
                    st@,
                    old(self).spec_prefix(),
                );
            }
            i = i + 1;
        }
        proof {
            assert(elements@.take(n as int) =~= elements@);
        }
    }

    /// Deletes every stored entry and resets the length to zero.
    pub fn clear(&mut self, st: &mut Store)
        requires
            old(self).wf(old(st)@),
        ensures
            final(self).spec_prefix() == old(self).spec_prefix(),
            final(self).spec_len() == 0,
            final(self).wf(final(st)@),
            agree_outside_region(old(st)@, final(st)@, old(self).spec_prefix()),
            forall|k: Seq<u8>| old(self).in_region(k) ==> !(#[trigger] final(st)@.contains_key(k)),
    {
        let n = self.len;
        let mut i: u64 = 0;
        while i < n
            invariant
                *self == *old(self),
                n == self.spec_len(),
                i <= n,
                agree_outside_region(old(st)@, st@, self.spec_prefix()),
                forall|k: Seq<u8>|
                    #[trigger] st@.contains_key(k) && self.in_region(k) ==> exists|j: u64|
                        i <= j < n && k == self.key_at(j),
            decreases n - i,
        {
            let ghost m0 = st@;
            let lookup_key = self.index_to_lookup_key(i);
            st.remove(lookup_key.as_slice());
            proof {
                self.lemma_key_at_region(i);
                assert forall|k: Seq<u8>|
                    #[trigger] st@.contains_key(k) && self.in_region(k) implies exists|j: u64|
                    i + 1 <= j < n && k == self.key_at(j) by {
                    assert(m0.contains_key(k));
                    let j = choose|j: u64| i <= j < n && k == self.key_at(j);
                    if j == i {
                        assert(!st@.contains_key(self.key_at(i)));
                    }
                    assert(i + 1 <= j < n && k == self.key_at(j));
                }
            }
            i = i + 1;
        }
        self.len = 0;
    }

    /// Whether every stored element is a well-formed encoded `u64`.
    pub open spec fn elems_wf(self, m: Map<Seq<u8>, Seq<u8>>) -> bool {
        forall|i: int| 0 <= i < self.spec_len() ==> (#[trigger] self.raw_view(m)[i]).len() == 8
    }

    /// The stored elements, decoded.
    pub open spec fn view(self, m: Map<Seq<u8>, Seq<u8>>) -> Seq<u64> {
        self.raw_view(m).map_values(|b: Seq<u8>| spec_u64_from_le_bytes(b))
    }

    fn serialize_element(element: u64) -> (r: Vec<u8>)
        ensures
            r@ == spec_u64_to_le_bytes(element),
            r@.len() == 8,
    {
        proof {
            lemma_auto_spec_u64_to_from_le_bytes();
        }
        u64_to_le_bytes(element)
    }

    fn deserialize_element(raw_element: &[u8]) -> (r: Option<u64>)
        ensures
            r == if raw_element@.len() == 8 {
                Some(spec_u64_from_le_bytes(raw_element@))
            } else {
                None::<u64>
            },
    {
        if raw_element.len() == 8 {
            Some(vstd::bytes::u64_from_le_bytes(raw_element))
        } else {
            None
        }
    }

    /// Appends an element to the back of the collection.
    pub fn push(&mut self, st: &mut Store, element: u64)
        requires
            old(self).wf(old(st)@),
            old(self).elems_wf(old(st)@),
            old(self).spec_len() < u64::MAX,
        ensures
            final(self).spec_prefix() == old(self).spec_prefix(),
            final(self).spec_len() == old(self).spec_len() + 1,
            final(self).wf(final(st)@),
            final(self).elems_wf(final(st)@),
            final(self).view(final(st)@) == old(self).view(old(st)@).push(element),
            agree_outside_region(old(st)@, final(st)@, old(self).spec_prefix()),
    {
        let raw_element = Self::serialize_element(element);
        self.push_raw(st, raw_element.as_slice());
        proof {
            lemma_auto_spec_u64_to_from_le_bytes();
            assert(final(self).view(st@) =~= old(self).view(old(st)@).push(element));
        }
    }

    /// Appends each element of `elements`, in order.
    pub fn extend(&mut self, st: &mut Store, elements: &Vec<u64>)
        requires
            old(self).wf(old(st)@),
            old(self).elems_wf(old(st)@),
            old(self).spec_len() + elements@.len() < u64::MAX,
        ensures
            final(self).spec_prefix() == old(self).spec_prefix(),
            final(self).wf(final(st)@),
            final(self).elems_wf(final(st)@),
            final(self).view(final(st)@) == old(self).view(old(st)@) + elements@,
            agree_outside_region(old(st)@, final(st)@, old(self).spec_prefix()),
    {
        let n = elements.len();
        let mut i: usize = 0;
        while i < n
            invariant
                n == elements@.len(),
                i <= n,
                self.spec_prefix() == old(self).spec_prefix(),
                self.wf(st@),
                self.elems_wf(st@),
                self.spec_len() == old(self).spec_len() + i,
                old(self).spec_len() + elements@.len() < u64::MAX,
                self.view(st@) =~= old(self).view(old(st)@) + elements@.take(i as int),
                agree_outside_region(old(st)@, st@, old(self).spec_prefix()),
            decreases n - i,
        {
            let ghost m0 = st@;
            self.push(st, elements[i]);
            proof {
                assert(self.view(st@) =~= old(self).view(old(st)@) + elements@.take(i + 1));
                crate::keys::lemma_agree_outside_trans(
                    old(st)@,
                    m0,
                    st@,
                    old(self).spec_prefix(),
                );
            }
            i = i + 1;
        }
        proof {
            assert(elements@.take(n as int) =~= elements@);
        }
    }

    /// Returns the element at `index`, or `None` if `index` is out of bounds.
    pub fn get(&self, st: &Store, index: u64) -> (r: Option<u64>)
        requires
            self.wf(st@),
            self.elems_wf(st@),
        ensures
            r == if index < self.spec_len() {
                Some(self.view(st@)[index as int])
            } else {
                None::<u64>
            },
    {
        match self.get_raw(st, index) {
            Some(raw_element) => Self::deserialize_element(raw_element.as_slice()),
            None => None,
        }
    }

    /// Removes the element at `index` by moving the last element into its
    /// place, returning it; fails with `OutOfBounds` if `index >= len`.
    pub fn swap_remove(&mut self, st: &mut Store, index: u64) -> (r: Result<u64, Error>)
        requires
            old(self).wf(old(st)@),
            old(self).elems_wf(old(st)@),
        ensures
            final(self).spec_prefix() == old(self).spec_prefix(),
            final(self).wf(final(st)@),
            agree_outside_region(old(st)@, final(st)@, old(self).spec_prefix()),
            match r {
                Ok(e) => index < old(self).spec_len() && e == old(self).view(old(st)@)[
                    index as int] && final(self).spec_len() == old(self).spec_len() - 1
                    && final(self).elems_wf(final(st)@) && final(self).view(final(st)@) == old(
                    self,
                ).view(old(st)@).update(index as int, old(self).view(old(st)@).last()).drop_last(),
                Err(e) => e == Error::OutOfBounds && index >= old(self).spec_len() && final(st)@
                    == old(st)@ && *final(self) == *old(self),
            },
    {
        let ghost m0 = st@;
        let ghost v0 = *self;
        match self.swap_remove_raw(st, index) {
            Ok(raw_evicted) => {
                proof {
                    assert(self.view(st@) =~= v0.view(m0).update(
                        index as int,
                        v0.view(m0).last(),
                    ).drop_last());
                }
                match Self::deserialize_element(raw_evicted.as_slice()) {
                    Some(element) => Ok(element),
                    None => {
                        // impossible: stored elements are well-formed
                        Err(Error::ValueDeserialization)
                    },
                }
            },
            Err(e) => Err(e),
        }
    }

    /// Removes the last element and returns it, or `None` if empty.
    pub fn pop(&mut self, st: &mut Store) -> (r: Option<u64>)
        requires
            old(self).wf(old(st)@),
            old(self).elems_wf(old(st)@),
        ensures
            final(self).spec_prefix() == old(self).spec_prefix(),
            final(self).wf(final(st)@),
            final(self).elems_wf(final(st)@),
            agree_outside_region(old(st)@, final(st)@, old(self).spec_prefix()),
            match r {
                Some(e) => old(self).spec_len() > 0 && e == old(self).view(old(st)@).last()
                    && final(self).spec_len() == old(self).spec_len() - 1 && final(self).view(
                    final(st)@,
                ) == old(self).view(old(st)@).drop_last(),
                None => old(self).spec_len() == 0 && final(st)@ == old(st)@ && final(self).spec_len()
                    == 0,
            },
    {
        let ghost m0 = st@;
        let ghost v0 = *self;
        match self.pop_raw(st) {
            Some(raw_element) => {
                proof {
                    assert(v0.raw_view(m0).last() == v0.raw_view(m0)[v0.spec_len() - 1]);
                    assert(self.view(st@) =~= v0.view(m0).drop_last());
                }
                match Self::deserialize_element(raw_element.as_slice()) {
                    Some(element) => Some(element),
                    None => {
                        // impossible: stored elements are well-formed
                        None
                    },
                }
            },
            None => None,
        }
    }

    /// Overwrites `index` with `element`, returning the previous element;
    /// fails with `OutOfBounds` if `index >= len`.
    pub fn replace(&mut self, st: &mut Store, index: u64, element: u64) -> (r: Result<u64, Error>)
        requires
            old(self).wf(old(st)@),
            old(self).elems_wf(old(st)@),
        ensures
            *final(self) == *old(self),
            final(self).wf(final(st)@),
            agree_outside_region(old(st)@, final(st)@, old(self).spec_prefix()),
            match r {
                Ok(e) => index < old(self).spec_len() && e == old(self).view(old(st)@)[
                    index as int] && final(self).elems_wf(final(st)@) && final(self).view(
                    final(st)@,
                ) == old(self).view(old(st)@).update(index as int, element),
                Err(e) => e == Error::OutOfBounds && index >= old(self).spec_len() && final(st)@
                    == old(st)@,
            },
    {
        let ghost m0 = st@;
        let ghost v0 = *self;
        let raw_element = Self::serialize_element(element);
        match self.replace_raw(st, index, raw_element.as_slice()) {
            Ok(raw_evicted) => {
                proof {
                    lemma_auto_spec_u64_to_from_le_bytes();
                    assert(self.view(st@) =~= v0.view(m0).update(index as int, element));
                }
                match Self::deserialize_element(raw_evicted.as_slice()) {
                    Some(previous) => Ok(previous),
                    None => {
                        // impossible: stored elements are well-formed
                        Err(Error::ValueDeserialization)
                    },
                }
            },
            Err(e) => Err(e),
        }
    }

    /// Iterates over the decoded elements, collecting them in index order.
    pub fn iter(&self, st: &Store) -> (r: Vec<u64>)
        requires
            self.wf(st@),
            self.elems_wf(st@),
        ensures
            r@ == self.view(st@),
    {
        let n = self.len;
        let mut out: Vec<u64> = Vec::new();
        let mut i: u64 = 0;
        while i < n
            invariant
                self.wf(st@),
                self.elems_wf(st@),
                n == self.spec_len(),
                i <= n,
                out@ =~= self.view(st@).take(i as int),
            decreases n - i,
        {
            match self.get(st, i) {
                Some(element) => {
                    out.push(element);
                },
                None => {
                    // impossible: `i` is a live index
                },
            }
            proof {
                assert(out@ =~= self.view(st@).take(i + 1));
            }
            i = i + 1;
        }
        proof {
            assert(self.view(st@).take(n as int) =~= self.view(st@));
        }
        out
    }

    /// Copies the decoded elements into a `Vec`.
    pub fn to_vec(&self, st: &Store) -> (r: Vec<u64>)
        requires
            self.wf(st@),
            self.elems_wf(st@),
        ensures
            r@ == self.view(st@),
    {
        self.iter(st)
    }
}

} // verus!
