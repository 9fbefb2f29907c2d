//! In-place partitioning, used when ordering work over tree nodes.

use vstd::prelude::*;

verus! {

use vstd::seq_lib::to_multiset_insert;
use vstd::seq_lib::to_multiset_remove;

/// Swap two elements of a vector.
fn swap_in_vec<T>(list: &mut Vec<T>, i: usize, j: usize)
    requires
        i < j,
        j < old(list)@.len(),
    ensures
        final(list)@ == old(list)@.update(i as int, old(list)@[j as int]).update(
            j as int,
            old(list)@[i as int],
        ),
        final(list)@.to_multiset() == old(list)@.to_multiset(),
{
    let ghost s = list@;
    let vj = list.remove(j);
    let vi = list.remove(i);
    list.insert(i, vj);
    list.insert(j, vi);
    proof {
        broadcast use vstd::seq_lib::group_to_multiset_ensures;

        assert(final(list)@ =~= s.update(i as int, s[j as int]).update(j as int, s[i as int]));
        to_multiset_remove(s, j as int);
        to_multiset_remove(s.remove(j as int), i as int);
        to_multiset_insert(s.remove(j as int).remove(i as int), i as int, s[j as int]);
        to_multiset_insert(
            s.remove(j as int).remove(i as int).insert(i as int, s[j as int]),
            j as int,
            s[i as int],
        );
        assert(s.contains(s[j as int]));
        assert(s.remove(j as int)[i as int] == s[i as int]);
        assert(s.remove(j as int).contains(s[i as int]));
        assert(final(list)@.to_multiset() =~= s.to_multiset());
    }
}

/// Partition the list in place by `predicate`: afterwards every element
/// satisfying it comes before every element that does not, the list holds
/// the same elements, and the returned index is the start of the
/// non-satisfying suffix — the length when the predicate holds everywhere.
#[verifier::loop_isolation(false)]
pub fn partition_in_place<T, P: Fn(&T) -> bool>(list: &mut Vec<T>, predicate: P) -> (r: usize)
    requires
        forall|t: &T| #[trigger] call_requires(predicate, (t,)),
    ensures
        r <= final(list)@.len(),
        final(list)@.len() == old(list)@.len(),
        final(list)@.to_multiset() == old(list)@.to_multiset(),
        forall|i: int| 0 <= i < r ==> call_ensures(predicate, (&final(list)@[i],), true),
        forall|i: int|
            r <= i < final(list)@.len() ==> call_ensures(predicate, (&final(list)@[i],), false),
{
    if list.len() == 0 {
        return 0;
    }
    let mut lo: usize = 0;
    let mut hi: usize = list.len() - 1;
    while lo < hi
        invariant
            0 <= lo <= hi + 1,
            lo < list@.len(),
            hi < list@.len(),
            list@.len() == old(list)@.len(),
            list@.to_multiset() == old(list)@.to_multiset(),
            forall|i: int| 0 <= i < lo ==> call_ensures(predicate, (&list@[i], ), true),
            forall|i: int|
                hi < i < list@.len() ==> call_ensures(predicate, (&list@[i], ), false),
        decreases hi + 1 - lo,
    {
        if predicate(&list[lo]) {
            lo += 1;
            continue ;
        }
        if !predicate(&list[hi]) {
            hi -= 1;
            continue ;
        }
        swap_in_vec(list, lo, hi);
        lo += 1;
        hi -= 1;
    }
    if predicate(&list[lo]) {
        lo + 1
    } else {
        lo
    }
}

} // verus!
