use nonempty::NonEmpty;
use vstd::prelude::*;

verus! {

/// The sequence has no element twice and every element comes before every
/// larger one.
pub open spec fn strictly_increasing(s: Seq<usize>) -> bool {
    forall|i: int, j: int| 0 <= i < j < s.len() ==> s[i] < s[j]
}

/// Every element is at most the next one.
pub open spec fn nondecreasing(s: Seq<usize>) -> bool {
    forall|i: int, j: int| 0 <= i < j < s.len() ==> s[i] <= s[j]
}

/// The elements of `s` in increasing order.
pub open spec fn sorted_indices(s: Set<usize>) -> Seq<usize> {
    choose|v: Seq<usize>| strictly_increasing(v) && (forall|i: usize| v.contains(i) <==> s.contains(i))
}

/// Two increasing sequences with the same elements are equal.
pub proof fn lemma_increasing_unique(s1: Seq<usize>, s2: Seq<usize>)
    requires
        strictly_increasing(s1),
        strictly_increasing(s2),
        forall|i: usize| s1.contains(i) <==> s2.contains(i),
    ensures
        s1 == s2,
    decreases s1.len(),
{
    if s1.len() == 0 {
        if s2.len() > 0 {
            assert(s2.contains(s2[0]));
        }
        assert(s1 =~= s2);
    } else {
        assert(s1.contains(s1[0]));
        assert(s2.len() > 0);
        assert(s2.contains(s2[0]));
        let k1 = choose|k: int| 0 <= k < s2.len() && s2[k] == s1[0];
        let k2 = choose|k: int| 0 <= k < s1.len() && s1[k] == s2[0];
        assert(s2[0] <= s2[k1]);
        assert(s1[0] <= s1[k2]);
        assert(s1[0] == s2[0]);
        let t1 = s1.drop_first();
        let t2 = s2.drop_first();
        assert forall|i: usize| t1.contains(i) <==> t2.contains(i) by {
            if t1.contains(i) {
                let k = choose|k: int| 0 <= k < t1.len() && t1[k] == i;
                assert(s1[k + 1] == i);
                assert(s1.contains(i));
                let m = choose|m: int| 0 <= m < s2.len() && s2[m] == i;
                assert(m != 0);
                assert(t2[m - 1] == i);
            }
            if t2.contains(i) {
                let k = choose|k: int| 0 <= k < t2.len() && t2[k] == i;
                assert(s2[k + 1] == i);
                assert(s2.contains(i));
                let m = choose|m: int| 0 <= m < s1.len() && s1[m] == i;
                assert(m != 0);
                assert(t1[m - 1] == i);
            }
        }
        lemma_increasing_unique(t1, t2);
        assert(s1 =~= s2) by {
            assert forall|k: int| 0 <= k < s1.len() implies s1[k] == s2[k] by {
                if k > 0 {
                    assert(t1[k - 1] == t2[k - 1]);
                }
            }
        }
    }
}

/// A sequence that is increasing and lists exactly `s` is `sorted_indices(s)`.
pub proof fn lemma_sorted_indices(v: Seq<usize>, s: Set<usize>)
    requires
        strictly_increasing(v),
        forall|i: usize| v.contains(i) <==> s.contains(i),
    ensures
        sorted_indices(s) == v,
{
    let w = sorted_indices(s);
    assert(strictly_increasing(w) && (forall|i: usize| w.contains(i) <==> s.contains(i)));
    lemma_increasing_unique(v, w);
}

/// The least element of `s`.
pub open spec fn least(s: Set<usize>) -> usize {
    choose|m: usize| s.contains(m) && forall|x: usize| s.contains(x) ==> m <= x
}

/// An element of `s` that is at most every element of `s` is `least(s)`.
pub proof fn lemma_least(s: Set<usize>, m: usize)
    requires
        s.contains(m),
        forall|x: usize| s.contains(x) ==> m <= x,
    ensures
        least(s) == m,
{
    let l = least(s);
    assert(s.contains(l) && forall|x: usize| s.contains(x) ==> l <= x);
    assert(l <= m && m <= l);
}

/// The length of an increasing sequence is the number of its elements.
pub proof fn lemma_increasing_len(v: Seq<usize>, s: Set<usize>)
    requires
        strictly_increasing(v),
        forall|i: usize| v.contains(i) <==> s.contains(i),
    ensures
        v.no_duplicates(),
        v.len() == s.len(),
        s.finite(),
{
    assert(v.no_duplicates()) by {
        assert forall|a: int, b: int| 0 <= a < v.len() && 0 <= b < v.len() && a != b implies v[a] != v[b] by {
            if a < b {
                assert(v[a] < v[b]);
            } else {
                assert(v[b] < v[a]);
            }
        }
    }
    v.unique_seq_to_set();
    assert(v.to_set() =~= s);
    vstd::seq_lib::seq_to_set_is_finite(v);
}

/// A nondecreasing rearrangement of a sequence without repeats is
/// increasing and has the same elements.
pub proof fn lemma_sorted_rearrangement(sorted: Seq<usize>, v: Seq<usize>)
    requires
        nondecreasing(sorted),
        sorted.to_multiset() == v.to_multiset(),
        v.no_duplicates(),
    ensures
        strictly_increasing(sorted),
        forall|i: usize| sorted.contains(i) <==> v.contains(i),
{
    broadcast use vstd::seq_lib::group_to_multiset_ensures;

    v.lemma_multiset_has_no_duplicates();
    sorted.lemma_multiset_has_no_duplicates_conv();
    assert forall|i: usize| sorted.contains(i) <==> v.contains(i) by {
        vstd::seq_lib::to_multiset_contains(sorted, i);
        vstd::seq_lib::to_multiset_contains(v, i);
    }
    assert forall|a: int, b: int| 0 <= a < b < sorted.len() implies sorted[a] < sorted[b] by {
        assert(sorted[a] <= sorted[b]);
        assert(sorted[a] != sorted[b]);
    }
}

// ---------------------------------------------------------------------------
// nonempty: the list of resources a philosopher needs
// ---------------------------------------------------------------------------
#[verifier::external_type_specification]
#[verifier::external_body]
#[verifier::reject_recursive_types(T)]
pub struct ExNonEmpty<T>(NonEmpty<T>);

/// The elements of a nonempty list of resource identifiers, in order.
pub uninterp spec fn nonempty_items(ne: NonEmpty<usize>) -> Seq<usize>;

/// `NonEmpty::from_vec`: `None` for an empty vector, otherwise a list with
/// the same elements in the same order.
#[verifier::external_body]
pub(crate) fn nonempty_from_vec(v: Vec<usize>) -> (r: Option<NonEmpty<usize>>)
    ensures
        r is None <==> v@.len() == 0,
        r matches Some(ne) ==> nonempty_items(ne) == v@,
{
    NonEmpty::from_vec(v)
}

/// `NonEmpty::len`: the number of elements, which is never zero.
#[verifier::external_body]
pub(crate) fn nonempty_len(ne: &NonEmpty<usize>) -> (n: usize)
    ensures
        n == nonempty_items(*ne).len(),
        n > 0,
{
    ne.len()
}

/// Indexing a `NonEmpty`: the element at position `i`, which must be one.
#[verifier::external_body]
pub(crate) fn nonempty_get(ne: &NonEmpty<usize>, i: usize) -> (x: usize)
    requires
        i < nonempty_items(*ne).len(),
    ensures
        x == nonempty_items(*ne)[i as int],
{
    ne[i]
}

/// `NonEmpty::contains`: whether `x` is an element.
#[verifier::external_body]
pub(crate) fn nonempty_contains(ne: &NonEmpty<usize>, x: &usize) -> (b: bool)
    ensures
        b == nonempty_items(*ne).contains(*x),
{
    ne.contains(x)
}

/// Sorts the nonempty list, by `NonEmpty::sort`: the elements stay the same,
/// each as often as before, and come out in nondecreasing order.
#[verifier::external_body]
pub(crate) fn nonempty_sort(me: &mut NonEmpty<usize>)
    ensures
        nondecreasing(nonempty_items(*final(me))),
        nonempty_items(*final(me)).to_multiset() == nonempty_items(*old(me)).to_multiset(),
{
    me.sort()
}

} // verus!
