//! General facts about sequences and sets that several proofs share.

use vstd::prelude::*;

verus! {

/// A prefix that is one longer holds one more element.
pub proof fn lemma_take_next_contains<T>(s: Seq<T>, i: int, x: T)
    requires
        0 <= i < s.len(),
    ensures
        s.take(i + 1).contains(x) <==> s.take(i).contains(x) || x == s[i],
{
    let shorter = s.take(i);
    let longer = s.take(i + 1);
    if shorter.contains(x) {
        let k = choose|k: int| 0 <= k < shorter.len() && shorter[k] == x;
        assert(longer[k] == x);
    }
    if x == s[i] {
        assert(longer[i] == x);
    }
    if longer.contains(x) {
        let k = choose|k: int| 0 <= k < longer.len() && longer[k] == x;
        if k < i {
            assert(shorter[k] == x);
        }
    }
}

/// A set of 32-bit identifiers has at most 2^32 members.
pub proof fn lemma_id_set_bounded(s: Set<u32>)
    ensures
        s.finite(),
        s.len() <= 0x1_0000_0000,
{
    broadcast use vstd::set_lib::full_set_properties;

    vstd::set_lib::range_set_properties::<u32>(0u32, u32::MAX);
    let all = Set::<u32>::full();
    assert(all =~= Set::<u32>::range(0u32, u32::MAX).insert(u32::MAX));
    assert(s.subset_of(all));
    vstd::set_lib::lemma_len_subset(s, all);
}

} // verus!
