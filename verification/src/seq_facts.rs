//! Small facts about exchanging elements of a sequence, shared by the tree's
//! split proof and the heap's sift proofs.

use vstd::prelude::*;
use vstd::assert_multisets_equal;

verus! {

broadcast use
    vstd::seq_lib::group_to_multiset_ensures,
    vstd::multiset::group_multiset_axioms,
    vstd::seq_lib::to_multiset_insert,
    vstd::seq_lib::to_multiset_remove;

/// Sequence with the elements at `i` and `j` exchanged.
pub open spec fn seq_swap(s: Seq<i64>, i: int, j: int) -> Seq<i64> {
    s.update(i, s[j]).update(j, s[i])
}

/// Overwriting one position exchanges the old element for the new one.
pub proof fn lemma_seq_update_ms(s: Seq<i64>, i: int, x: i64)
    requires
        0 <= i < s.len(),
    ensures
        s.update(i, x).to_multiset() == s.to_multiset().remove(s[i]).insert(x),
{
    assert(s.update(i, x) =~= s.remove(i).insert(i, x));
    assert(s.remove(i).to_multiset() == s.to_multiset().remove(s[i]));
    assert(s.remove(i).insert(i, x).to_multiset() == s.remove(i).to_multiset().insert(x));
}

/// Exchanging two positions keeps the multiset of elements.
pub proof fn lemma_seq_swap_ms(s: Seq<i64>, i: int, j: int)
    requires
        0 <= i < s.len(),
        0 <= j < s.len(),
    ensures
        seq_swap(s, i, j).to_multiset() == s.to_multiset(),
{
    broadcast use vstd::multiset::group_multiset_axioms;

    if i == j {
        assert(seq_swap(s, i, j) =~= s);
    } else {
        let u1 = s.update(i, s[j]);
        lemma_seq_update_ms(s, i, s[j]);
        assert(u1[j] == s[j]);
        lemma_seq_update_ms(u1, j, s[i]);
        assert(seq_swap(s, i, j).to_multiset() == s.to_multiset().remove(s[i]).insert(
            s[j],
        ).remove(s[j]).insert(s[i]));
        assert(s.to_multiset().count(s[i]) >= 1) by {
            assert(s.contains(s[i]));
        }
        assert_multisets_equal!(
            s.to_multiset().remove(s[i]).insert(s[j]).remove(s[j]).insert(s[i]),
            s.to_multiset()
        );
    }
}

} // verus!
