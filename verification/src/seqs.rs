//! Facts about sequences that several modules use.

use vstd::prelude::*;

verus! {

/// The elements of the first `k + 1` items are those of the first `k` items
/// and the item at `k`.
pub proof fn lemma_take_to_set_step<A>(s: Seq<A>, k: int)
    requires
        0 <= k < s.len(),
    ensures
        s.take(k + 1).to_set() == s.take(k).to_set().insert(s[k]),
{
    let longer = s.take(k + 1);
    let shorter = s.take(k);
    assert forall|a: A| longer.to_set().contains(a) <==> shorter.to_set().insert(s[k]).contains(a) by {
        if longer.contains(a) {
            let i = choose|i: int| 0 <= i < longer.len() && longer[i] == a;
            if i < k {
                assert(shorter[i] == a);
            }
        }
        if shorter.contains(a) {
            let i = choose|i: int| 0 <= i < shorter.len() && shorter[i] == a;
            assert(longer[i] == a);
        }
        if a == s[k] {
            assert(longer[k] == a);
        }
    }
    assert(longer.to_set() =~= shorter.to_set().insert(s[k]));
}

} // verus!
