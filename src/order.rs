use vstd::prelude::*;

verus! {

/// Every element of `s` is below each later one, in the order `lt`.
pub open spec fn sorted_by<T>(s: Seq<T>, lt: spec_fn(T, T) -> bool) -> bool {
    forall|p: int, q: int| 0 <= p < q < s.len() ==> lt(s[p], s[q])
}

/// Two sorted sequences, the first below the second throughout, make a
/// sorted sequence.
pub proof fn lemma_concat_sorted<T>(s1: Seq<T>, s2: Seq<T>, lt: spec_fn(T, T) -> bool)
    requires
        sorted_by(s1, lt),
        sorted_by(s2, lt),
        forall|p: int, q: int| 0 <= p < s1.len() && 0 <= q < s2.len() ==> lt(s1[p], s2[q]),
    ensures
        sorted_by(s1 + s2, lt),
{
    let s = s1 + s2;
    assert forall|p: int, q: int| 0 <= p < q < s.len() implies lt(s[p], s[q]) by {
        if q < s1.len() {
            assert(s[p] == s1[p] && s[q] == s1[q]);
        } else if p < s1.len() {
            assert(s[p] == s1[p] && s[q] == s2[q - s1.len()]);
        } else {
            assert(s[p] == s2[p - s1.len()] && s[q] == s2[q - s1.len()]);
        }
    }
}

} // verus!
