use vstd::prelude::*;
use crate::lex::sorted;
use vstd::seq_lib::to_multiset_update;

verus! {

/// Exchanging two neighbours keeps the multiset of values.
proof fn lemma_swap_adjacent_multiset(s: Seq<i64>, j: int)
    requires
        0 < j < s.len(),
    ensures
        s.update(j - 1, s[j]).update(j, s[j - 1]).to_multiset() == s.to_multiset(),
{
    broadcast use vstd::multiset::group_multiset_axioms;

    let t = s.update(j - 1, s[j]);
    assert(t[j] == s[j]);
    to_multiset_update(s, j - 1, s[j]);
    to_multiset_update(t, j, s[j - 1]);
    let m = s.to_multiset();
    let x = s[j];
    let y = s[j - 1];
    assert(s.to_multiset().count(y) > 0) by {
        broadcast use vstd::seq_lib::group_to_multiset_ensures;
        assert(s.contains(y));
    }
    assert forall|e: i64| #[trigger] m.insert(x).remove(y).insert(y).remove(x).count(e)
        == m.count(e) by {}
    assert(m.insert(x).remove(y).insert(y).remove(x) =~= m);
}

/// Sorts `v` ascending in place (insertion sort).
pub fn sort_ascending(v: &mut Vec<i64>)
    ensures
        sorted(final(v)@),
        final(v)@.to_multiset() == old(v)@.to_multiset(),
        final(v)@.len() == old(v)@.len(),
{
    let n = v.len();
    let mut i: usize = 1;
    if n == 0 {
        return;
    }
    while i < n
        invariant
            1 <= i <= n,
            n == v@.len(),
            sorted(v@.subrange(0, i as int)),
            v@.to_multiset() == old(v)@.to_multiset(),
        decreases n - i,
    {
        assert forall|a: int, b: int| 0 <= a <= b < i implies v@[a] <= v@[b] by {
            assert(v@.subrange(0, i as int)[a] == v@[a]);
            assert(v@.subrange(0, i as int)[b] == v@[b]);
        }
        let mut j: usize = i;
        while j > 0 && v[j - 1] > v[j]
            invariant
                0 <= j <= i < n,
                n == v@.len(),
                v@.to_multiset() == old(v)@.to_multiset(),
                // prefix [0, i] is sorted except at position j
                forall|a: int, b: int| 0 <= a <= b <= i && a != j && b != j ==> v@[a] <= v@[b],
                forall|b: int| j < b <= i ==> v@[j as int] <= v@[b],
            decreases j,
        {
            proof {
                lemma_swap_adjacent_multiset(v@, j as int);
            }
            let x = v[j];
            let y = v[j - 1];
            v.set(j - 1, x);
            v.set(j, y);
            j = j - 1;
        }
        i = i + 1;
        assert forall|a: int, b: int| 0 <= a <= b < i implies v@.subrange(0, i as int)[a]
            <= v@.subrange(0, i as int)[b] by {
            if a == j as int && j > 0 {
                assert(v@[j - 1] <= v@[a]);
            }
        }
    }
    assert(v@.subrange(0, n as int) =~= v@);
}

} // verus!
