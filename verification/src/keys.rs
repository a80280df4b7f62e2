//! Construction of backend keys from collection prefixes.
//!
//! Every collection owns the region of the store whose keys start with its
//! prefix; a key is `prefix ‖ suffix`.  The lemmas here justify that regions
//! with distinct prefixes of equal length never overlap, and that a suffix
//! can be recovered from a key.

use vstd::prelude::*;

verus! {

/// Appends one tag byte to an identifier, giving a sub-collection prefix.
pub fn append(id: &[u8], tag: u8) -> (r: Vec<u8>)
    ensures
        r@ == id@.push(tag),
{
    let mut out = crate::store::bytes_to_vec(id);
    out.push(tag);
    out
}

/// Concatenates a prefix and a suffix into a backend key.
pub fn append_slice(prefix: &[u8], suffix: &[u8]) -> (r: Vec<u8>)
    ensures
        r@ == prefix@ + suffix@,
{
    let mut out = crate::store::bytes_to_vec(prefix);
    out.extend_from_slice(suffix);
    proof {
        assert(out@ =~= prefix@ + suffix@);
    }
    out
}

/// A prefix is a prefix of any key built from it.
pub proof fn lemma_prefixed(p: Seq<u8>, s: Seq<u8>)
    ensures
        p.is_prefix_of(p + s),
{
    assert((p + s).subrange(0, p.len() as int) =~= p);
}

/// Appending to a fixed prefix is injective in the suffix.
pub proof fn lemma_concat_cancel(p: Seq<u8>, a: Seq<u8>, b: Seq<u8>)
    requires
        p + a == p + b,
    ensures
        a == b,
{
    assert(a =~= (p + a).skip(p.len() as int));
    assert(b =~= (p + b).skip(p.len() as int));
}

/// Keys in regions with distinct prefixes of equal length are distinct.
pub proof fn lemma_regions_disjoint(p1: Seq<u8>, p2: Seq<u8>, k: Seq<u8>)
    requires
        p1.len() == p2.len(),
        p1 != p2,
    ensures
        !(p1.is_prefix_of(k) && p2.is_prefix_of(k)),
{
    if p1.is_prefix_of(k) && p2.is_prefix_of(k) {
        assert(p1 =~= p2);
    }
}

/// Two maps agree on every key that does not start with `prefix`.
pub open spec fn agree_outside_region(
    m1: Map<Seq<u8>, Seq<u8>>,
    m2: Map<Seq<u8>, Seq<u8>>,
    prefix: Seq<u8>,
) -> bool {
    &&& forall|k: Seq<u8>| !prefix.is_prefix_of(k) ==> #[trigger] m1.contains_key(k)
        == m2.contains_key(k)
    &&& forall|k: Seq<u8>| !prefix.is_prefix_of(k) && #[trigger] m1.contains_key(k) ==> m1[k]
        == m2[k]
}

/// Agreement outside a region is transitive.
pub proof fn lemma_agree_outside_trans(
    m1: Map<Seq<u8>, Seq<u8>>,
    m2: Map<Seq<u8>, Seq<u8>>,
    m3: Map<Seq<u8>, Seq<u8>>,
    prefix: Seq<u8>,
)
    requires
        agree_outside_region(m1, m2, prefix),
        agree_outside_region(m2, m3, prefix),
    ensures
        agree_outside_region(m1, m3, prefix),
{
    assert forall|k: Seq<u8>| !prefix.is_prefix_of(k) implies #[trigger] m1.contains_key(k)
        == m3.contains_key(k) by {
        assert(m1.contains_key(k) == m2.contains_key(k));
    }
    assert forall|k: Seq<u8>| !prefix.is_prefix_of(k) && #[trigger] m1.contains_key(k) implies m1[k]
        == m3[k] by {
        assert(m1.contains_key(k) == m2.contains_key(k));
        assert(m1[k] == m2[k]);
    }
}

/// Two maps agree on every key that does start with `prefix`.
pub open spec fn agree_on_region(
    m1: Map<Seq<u8>, Seq<u8>>,
    m2: Map<Seq<u8>, Seq<u8>>,
    prefix: Seq<u8>,
) -> bool {
    &&& forall|k: Seq<u8>| prefix.is_prefix_of(k) ==> #[trigger] m1.contains_key(k)
        == m2.contains_key(k)
    &&& forall|k: Seq<u8>| prefix.is_prefix_of(k) && #[trigger] m1.contains_key(k) ==> m1[k]
        == m2[k]
}

/// Agreement outside one region implies agreement on any disjoint region.
pub proof fn lemma_agreement_crosses_regions(
    m1: Map<Seq<u8>, Seq<u8>>,
    m2: Map<Seq<u8>, Seq<u8>>,
    touched: Seq<u8>,
    other: Seq<u8>,
)
    requires
        agree_outside_region(m1, m2, touched),
        touched.len() == other.len(),
        touched != other,
    ensures
        agree_on_region(m1, m2, other),
{
    assert forall|k: Seq<u8>| other.is_prefix_of(k) implies #[trigger] m1.contains_key(k)
        == m2.contains_key(k) by {
        lemma_regions_disjoint(touched, other, k);
    }
    assert forall|k: Seq<u8>| other.is_prefix_of(k) && #[trigger] m1.contains_key(k) implies m1[k]
        == m2[k] by {
        lemma_regions_disjoint(touched, other, k);
    }
}

} // verus!
