//! Merge sort of integer keys, shared by the policies that rank things.
use vstd::prelude::*;
use vstd::seq_lib::group_to_multiset_ensures;
#[allow(unused_imports)]
use vstd::seq_lib::*;
use vstd::multiset::Multiset;

verus! {

/// A key: three numbers compared in turn.
pub type Key = (u64, u64, u64);

/// Whether `a` comes strictly before `b`.
pub open spec fn before(a: Key, b: Key) -> bool {
    a.0 < b.0 || (a.0 == b.0 && (a.1 < b.1 || (a.1 == b.1 && a.2 < b.2)))
}

/// Whether no key comes before one that stands ahead of it.
pub open spec fn ordered(s: Seq<Key>) -> bool {
    forall|i: int, j: int| 0 <= i < j < s.len() ==> !before(#[trigger] s[j], #[trigger] s[i])
}

fn comes_before(a: Key, b: Key) -> (r: bool)
    ensures
        r == before(a, b),
{
    a.0 < b.0 || (a.0 == b.0 && (a.1 < b.1 || (a.1 == b.1 && a.2 < b.2)))
}

fn merge(a: &Vec<Key>, b: &Vec<Key>) -> (out: Vec<Key>)
    requires
        ordered(a@),
        ordered(b@),
    ensures
        ordered(out@),
        out@.to_multiset() == a@.to_multiset().add(b@.to_multiset()),
{
    broadcast use group_to_multiset_ensures;

    let mut out: Vec<Key> = Vec::new();
    let mut i: usize = 0;
    let mut j: usize = 0;
    proof {
        assert(a@.take(0) =~= Seq::empty());
        assert(b@.take(0) =~= Seq::empty());
        assert(out@.to_multiset() =~= a@.take(0).to_multiset().add(b@.take(0).to_multiset()));
    }
    while i < a.len() || j < b.len()
        invariant
            i <= a.len(),
            j <= b.len(),
            ordered(a@),
            ordered(b@),
            ordered(out@),
            forall|x: int, y: int|
                0 <= x < out.len() && i <= y < a.len() ==> !before(
                    #[trigger] a@[y],
                    #[trigger] out@[x],
                ),
            forall|x: int, y: int|
                0 <= x < out.len() && j <= y < b.len() ==> !before(
                    #[trigger] b@[y],
                    #[trigger] out@[x],
                ),
            out@.to_multiset() == a@.take(i as int).to_multiset().add(
                b@.take(j as int).to_multiset(),
            ),
        decreases (a.len() - i) + (b.len() - j),
    {
        let from_a = i < a.len() && (j >= b.len() || !comes_before(b[j], a[i]));
        let ghost had = out@;
        if from_a {
            out.push(a[i]);
            proof {
                assert(a@.take(i as int + 1) =~= a@.take(i as int).push(a@[i as int]));
                had.to_multiset_ensures();
                a@.take(i as int).to_multiset_ensures();
                assert(out@ == had.push(a@[i as int]));
                assert(out@.to_multiset() =~= a@.take(i as int + 1).to_multiset().add(
                    b@.take(j as int).to_multiset(),
                ));
                assert forall|x: int, y: int|
                    0 <= x < out.len() && j <= y < b.len() implies !before(
                    #[trigger] b@[y],
                    #[trigger] out@[x],
                ) by {
                    if x == had.len() {
                        if y > j {
                            assert(!before(b@[y], b@[j as int]));
                        }
                    } else {
                        assert(out@[x] == had[x]);
                    }
                }
            }
            i = i + 1;
        } else {
            out.push(b[j]);
            proof {
                assert(b@.take(j as int + 1) =~= b@.take(j as int).push(b@[j as int]));
                had.to_multiset_ensures();
                b@.take(j as int).to_multiset_ensures();
                assert(out@ == had.push(b@[j as int]));
                assert(out@.to_multiset() =~= a@.take(i as int).to_multiset().add(
                    b@.take(j as int + 1).to_multiset(),
                ));
                assert forall|x: int, y: int|
                    0 <= x < out.len() && i <= y < a.len() implies !before(
                    #[trigger] a@[y],
                    #[trigger] out@[x],
                ) by {
                    if x == had.len() {
                        if y > i {
                            assert(!before(a@[y], a@[i as int]));
                        }
                    } else {
                        assert(out@[x] == had[x]);
                    }
                }
            }
            j = j + 1;
        }
    }
    proof {
        assert(a@.take(i as int) =~= a@);
        assert(b@.take(j as int) =~= b@);
    }
    out
}

fn sort_slice(v: &[Key]) -> (out: Vec<Key>)
    ensures
        ordered(out@),
        out@.to_multiset() == v@.to_multiset(),
    decreases v@.len(),
{
    broadcast use group_to_multiset_ensures;

    if v.len() <= 1 {
        let mut out: Vec<Key> = Vec::new();
        if v.len() == 1 {
            out.push(v[0]);
        }
        proof {
            assert(out@ =~= v@);
        }
        return out;
    }
    let mid: usize = v.len() / 2;
    let left = vstd::slice::slice_subrange(v, 0, mid);
    let right = vstd::slice::slice_subrange(v, mid, v.len());
    let a = sort_slice(left);
    let b = sort_slice(right);
    proof {
        assert(v@ =~= left@ + right@);
        lemma_multiset_commutative(left@, right@);
    }
    merge(&a, &b)
}

/// The keys in ascending order.
pub fn sort_keys(v: &Vec<Key>) -> (out: Vec<Key>)
    ensures
        ordered(out@),
        out@.to_multiset() == v@.to_multiset(),
        out@.len() == v@.len(),
{
    broadcast use group_to_multiset_ensures;

    let out = sort_slice(v.as_slice());
    proof {
        assert(out@.len() == out@.to_multiset().len());
    }
    out
}

/// Two sequences with the same elements hold the same elements.
pub proof fn lemma_same_elements(a: Seq<Key>, b: Seq<Key>, k: Key)
    requires
        a.to_multiset() == b.to_multiset(),
    ensures
        a.contains(k) <==> b.contains(k),
{
    broadcast use group_to_multiset_ensures;

    assert(a.contains(k) <==> a.to_multiset().count(k) > 0);
    assert(b.contains(k) <==> b.to_multiset().count(k) > 0);
}

/// What has no repetition keeps none when rearranged.
pub proof fn lemma_rearranged_distinct(a: Seq<Key>, b: Seq<Key>)
    requires
        a.to_multiset() == b.to_multiset(),
        a.no_duplicates(),
    ensures
        b.no_duplicates(),
{
    broadcast use group_to_multiset_ensures;

    a.lemma_multiset_has_no_duplicates();
    assert(b.to_multiset() == a.to_multiset());
    b.lemma_multiset_has_no_duplicates_conv();
}

} // verus!
