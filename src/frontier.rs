use vstd::multiset::Multiset;
use vstd::prelude::*;
use radix_heap::RadixHeapMap;

verus! {

#[verifier::external_type_specification]
#[verifier::external_body]
#[verifier::reject_recursive_types(K)]
#[verifier::reject_recursive_types(V)]
pub struct ExRadixHeapMap<K, V>(RadixHeapMap<K, V>);

/// The key-value pairs that a frontier holds.
pub uninterp spec fn frontier_items(h: RadixHeapMap<u64, u32>) -> Multiset<(u64, u32)>;

/// The frontier's top key: pushed keys may not exceed it.
pub uninterp spec fn frontier_top(h: RadixHeapMap<u64, u32>) -> Option<u64>;

/// Relies on radix_heap::RadixHeapMap::new_at: an empty max-heap whose top key is `top`.
#[verifier::external_body]
pub(crate) fn frontier_new(top: u64) -> (h: RadixHeapMap<u64, u32>)
    ensures
        frontier_items(h) =~= Multiset::empty(),
        frontier_top(h) == Some(top),
{
    RadixHeapMap::new_at(top)
}

/// Relies on radix_heap::RadixHeapMap::push: adds the pair, leaves the top key;
/// it panics on a key above the top key.
#[verifier::external_body]
pub(crate) fn frontier_push(h: &mut RadixHeapMap<u64, u32>, key: u64, value: u32)
    requires
        frontier_top(*old(h)) is Some,
        key <= frontier_top(*old(h))->0,
    ensures
        frontier_items(*final(h)) == frontier_items(*old(h)).insert((key, value)),
        frontier_top(*final(h)) == frontier_top(*old(h)),
{
    h.push(key, value)
}

/// Relies on radix_heap::RadixHeapMap::pop: removes and returns a pair of greatest
/// key, which becomes the top key; `None` only when the heap is empty.
#[verifier::external_body]
pub(crate) fn frontier_pop(h: &mut RadixHeapMap<u64, u32>) -> (r: Option<(u64, u32)>)
    ensures
        r is None ==> frontier_items(*old(h)).len() == 0 && frontier_items(*final(h))
            == frontier_items(*old(h)) && frontier_top(*final(h)) == frontier_top(*old(h)),
        r is Some ==> {
            let (k, v) = r->0;
            &&& frontier_items(*old(h)).count((k, v)) > 0
            &&& frontier_items(*final(h)) == frontier_items(*old(h)).remove((k, v))
            &&& frontier_top(*final(h)) == Some(k)
            &&& forall|p: (u64, u32)| #[trigger]
                frontier_items(*old(h)).count(p) > 0 ==> p.0 <= k
        },
{
    h.pop()
}

} // verus!
