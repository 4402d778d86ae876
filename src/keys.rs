use vstd::prelude::*;

verus! {

/// A map whose keys are exactly the values of a sequence without repeats
/// has as many entries as the sequence.
pub proof fn lemma_keys_len<K, V>(m: Map<K, V>, s: Seq<K>)
    requires
        forall|i: int, j: int| 0 <= i < j < s.len() ==> s[i] != s[j],
        forall|i: int| 0 <= i < s.len() ==> m.contains_key(#[trigger] s[i]),
        forall|k: K| #[trigger] m.contains_key(k) ==> exists|i: int| 0 <= i < s.len() && s[i] == k,
    ensures
        m.len() == s.len(),
{
    assert forall|k: K| m.contains_key(k) <==> s.contains(k) by {
        if m.contains_key(k) {
            let i = choose|i: int| 0 <= i < s.len() && s[i] == k;
            assert(s[i] == k);
        }
    }
    assert(m.dom() =~= s.to_set());
    assert(s.no_duplicates()) by {
        assert forall|i: int, j: int| 0 <= i < s.len() && 0 <= j < s.len() && i != j implies s[i]
            != s[j] by {
            if j < i {
                assert(s[j] != s[i]);
            }
        }
    }
    s.unique_seq_to_set();
}

} // verus!
