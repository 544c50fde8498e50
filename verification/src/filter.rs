//! The approximate-membership filter used by the bloom-filtered managers:
//! a bloom filter over keys, with false positives permitted and false
//! negatives forbidden.
//!
//! The filter itself comes from the `bloomfilter` crate; the spec name
//! [`bloom_keys`] stands for the set of keys recorded in a filter value, and
//! the trusted wrappers state what recording and checking do to that set.

use vstd::prelude::*;
use crate::memtable::{lemma_entries_map_char, Memtable};
use crate::table_manager::entry_views;

verus! {

/// The estimated maximum number of keys the filter is sized for.
pub const BLOOM_CAPACITY: usize = 25000;

/// The bitmap size in bytes, derived for [`BLOOM_CAPACITY`] keys at a
/// one-in-twenty false-positive target.
pub const BLOOM_BITMAP_BYTES: usize = 19486;

#[verifier::external_type_specification]
#[verifier::external_body]
#[verifier::reject_recursive_types(T)]
pub struct ExBloom<T: ?Sized>(bloomfilter::Bloom<T>);

/// The set of keys recorded in a filter.
pub uninterp spec fn bloom_keys(b: bloomfilter::Bloom<Vec<u8>>) -> Set<Seq<u8>>;

/// Every key of the mapping that is live (stored with a value, not a
/// tombstone) is recorded in the filter: the filter gives no false negative
/// for a live key.
pub open spec fn bloom_covers(m: Map<Seq<u8>, Option<Seq<u8>>>, keys: Set<Seq<u8>>) -> bool {
    forall|k: Seq<u8>| m.contains_key(k) && m[k] is Some ==> keys.contains(k)
}

/// Relies on `bloomfilter::Bloom::new`: a fresh filter has every bit clear
/// and records no key.
#[verifier::external_body]
pub fn bloom_new(bitmap_bytes: usize, items_count: usize) -> (r: bloomfilter::Bloom<Vec<u8>>)
    requires
        bitmap_bytes >= 1,
        items_count >= 1,
    ensures
        bloom_keys(r) == Set::<Seq<u8>>::empty(),
{
    bloomfilter::Bloom::new(bitmap_bytes, items_count)
}

/// Relies on `bloomfilter::Bloom::set`: recording a key only sets bits, so
/// the key is recorded afterwards and nothing recorded is forgotten.  Bits
/// set for one key may happen to record others too, so only containment is
/// promised, not equality.
#[verifier::external_body]
pub fn bloom_set(b: &mut bloomfilter::Bloom<Vec<u8>>, item: &Vec<u8>)
    ensures
        bloom_keys(*old(b)).insert(item@).subset_of(bloom_keys(*final(b))),
{
    b.set(item)
}

/// Relies on `bloomfilter::Bloom::check`: a recorded key always checks true;
/// an unrecorded key may check either way.
#[verifier::external_body]
pub fn bloom_check(b: &bloomfilter::Bloom<Vec<u8>>, item: &Vec<u8>) -> (r: bool)
    ensures
        bloom_keys(*b).contains(item@) ==> r,
{
    b.check(item)
}

/// Record every key of the memtable in the filter.
pub fn bloom_fill(b: &mut bloomfilter::Bloom<Vec<u8>>, mt: &Memtable)
    requires
        mt.inv(),
    ensures
        bloom_keys(*old(b)).subset_of(bloom_keys(*final(b))),
        forall|k: Seq<u8>| mt@.contains_key(k) ==> bloom_keys(*final(b)).contains(k),
{
    let ghost es = entry_views(mt.entries@);
    let mut i: usize = 0;
    while i < mt.entries.len()
        invariant
            mt.inv(),
            i <= mt.entries@.len(),
            bloom_keys(*old(b)).subset_of(bloom_keys(*b)),
            es == entry_views(mt.entries@),
            forall|j: int| 0 <= j < i ==> bloom_keys(*b).contains(#[trigger] es[j].key),
        decreases mt.entries@.len() - i,
    {
        bloom_set(b, &mt.entries[i].key);
        i = i + 1;
    }
    proof {
        lemma_entries_map_char(es);
        assert forall|k: Seq<u8>| mt@.contains_key(k) implies bloom_keys(*b).contains(k) by {
            let j = choose|j: int| 0 <= j < es.len() && #[trigger] es[j].key == k;
            assert(bloom_keys(*b).contains(es[j].key));
        }
    }
}

} // verus!
