use vstd::prelude::*;
use vstd::multiset::group_multiset_axioms;
use vstd::seq_lib::group_to_multiset_ensures;

verus! {

/// Keys in non-decreasing order.
pub open spec fn sorted(s: Seq<i32>) -> bool {
    forall|i: int, j: int| 0 <= i < j < s.len() ==> s[i] <= s[j]
}

/// Two sorted runs with a key between them make a sorted run.
pub proof fn lemma_sorted_join(l: Seq<i32>, k: i32, r: Seq<i32>)
    requires
        sorted(l),
        sorted(r),
        forall|x: i32| l.contains(x) ==> x <= k,
        forall|x: i32| r.contains(x) ==> k <= x,
    ensures
        sorted(l + seq![k] + r),
{
    let s = l + seq![k] + r;
    assert forall|i: int, j: int| 0 <= i < j < s.len() implies s[i] <= s[j] by {
        if i < l.len() {
            assert(l.contains(s[i]));
        }
        if j > l.len() {
            assert(r.contains(s[j]) && s[j] == r[j - l.len() - 1]);
        }
        if i > l.len() {
            assert(s[i] == r[i - l.len() - 1]);
        }
        if j < l.len() {
            assert(s[j] == l[j]);
        }
    }
}

/// How many of the keys in `s` are strictly smaller than `k`.
pub open spec fn count_less(s: Seq<i32>, k: i32) -> nat
    decreases s.len(),
{
    if s.len() == 0 {
        0
    } else {
        count_less(s.drop_last(), k) + if s.last() < k {
            1nat
        } else {
            0nat
        }
    }
}

proof fn lemma_count_less_append(a: Seq<i32>, b: Seq<i32>, k: i32)
    ensures
        count_less(a + b, k) == count_less(a, k) + count_less(b, k),
    decreases b.len(),
{
    if b.len() > 0 {
        lemma_count_less_append(a, b.drop_last(), k);
        assert((a + b).drop_last() =~= a + b.drop_last());
    } else {
        assert(a + b =~= a);
    }
}

proof fn lemma_count_less_bounds(s: Seq<i32>, k: i32)
    ensures
        (forall|i: int| 0 <= i < s.len() ==> #[trigger] s[i] < k) ==> count_less(s, k) == s.len(),
        (forall|i: int| 0 <= i < s.len() ==> k <= #[trigger] s[i]) ==> count_less(s, k) == 0,
    decreases s.len(),
{
    if s.len() > 0 {
        lemma_count_less_bounds(s.drop_last(), k);
        if forall|i: int| 0 <= i < s.len() ==> #[trigger] s[i] < k {
            assert(forall|i: int| 0 <= i < s.drop_last().len() ==> #[trigger] s.drop_last()[i] == s[i]);
        }
        if forall|i: int| 0 <= i < s.len() ==> k <= #[trigger] s[i] {
            assert(forall|i: int| 0 <= i < s.drop_last().len() ==> #[trigger] s.drop_last()[i] == s[i]);
        }
    }
}

/// In keys that are in order and each stored once, the key at position `i`
/// has exactly `i` keys below it: ranking the key selected at `i` gives `i`
/// back.
pub proof fn law_rank_of_select(s: Seq<i32>, i: int)
    requires
        sorted(s),
        s.no_duplicates(),
        0 <= i < s.len(),
    ensures
        count_less(s, s[i]) == i,
{
    let a = s.take(i);
    let b = s.skip(i);
    assert(s =~= a + b);
    lemma_count_less_append(a, b, s[i]);
    assert forall|j: int| 0 <= j < a.len() implies #[trigger] a[j] < s[i] by {
        assert(a[j] == s[j]);
    }
    assert forall|j: int| 0 <= j < b.len() implies s[i] <= #[trigger] b[j] by {
        assert(b[j] == s[i + j]);
    }
    lemma_count_less_bounds(a, s[i]);
    lemma_count_less_bounds(b, s[i]);
}

/// Presence after an insertion: the inserted key is present, and every
/// other key is present exactly when it was before.
pub proof fn law_insert_membership(before: Seq<i32>, after: Seq<i32>, key: i32, k: i32)
    requires
        after.to_multiset() == before.to_multiset().insert(key),
    ensures
        after.contains(k) <==> (before.contains(k) || k == key),
{
    broadcast use group_to_multiset_ensures, group_multiset_axioms;

    assert(after.contains(k) <==> after.to_multiset().count(k) > 0);
}

/// Presence after a deletion: a key other than the deleted one is present
/// exactly when it was before; the deleted key stays present only where it
/// was stored more than once.
pub proof fn law_delete_membership(before: Seq<i32>, after: Seq<i32>, key: i32, k: i32)
    requires
        after.to_multiset() == before.to_multiset().remove(key),
    ensures
        k != key ==> (after.contains(k) <==> before.contains(k)),
        !after.contains(key) <==> before.to_multiset().count(key) <= 1,
{
    broadcast use group_to_multiset_ensures, group_multiset_axioms;

    assert(after.contains(k) <==> after.to_multiset().count(k) > 0);
    assert(after.contains(key) <==> after.to_multiset().count(key) > 0);
}


} // verus!
