//! In-place sorting by the version-sort order.

use core::cmp::Ordering;
use vstd::prelude::*;

use crate::compare::spec_compare;
use crate::laws::{lemma_compare_flip, lemma_compare_trans};

verus! {

/// `x` sorts no later than `y`.
pub open spec fn version_le(x: Seq<char>, y: Seq<char>) -> bool {
    spec_compare(x, y) != Ordering::Greater
}

/// The strings of `s` are in version-sort order.
pub open spec fn sorted_version(s: Seq<Seq<char>>) -> bool {
    forall|i: int, j: int| 0 <= i < j < s.len() ==> version_le(#[trigger] s[i], #[trigger] s[j])
}

/// Sorting is idempotent: the order has only one sorted arrangement of any
/// multiset of strings, so any result that `sort` may produce from an
/// already-sorted input is that input itself, and sorting twice is the same
/// as sorting once.
pub proof fn lemma_sorted_permutation_unique(x: Seq<Seq<char>>, y: Seq<Seq<char>>)
    requires
        sorted_version(x),
        sorted_version(y),
        x.to_multiset() == y.to_multiset(),
    ensures
        x == y,
    decreases x.len(),
{
    x.to_multiset_ensures();
    y.to_multiset_ensures();
    assert(x.len() == y.len());
    if x.len() == 0 {
        assert(x =~= y);
    } else {
        // The heads are equal: each occurs in the other sequence, and the
        // head of a sorted sequence sorts no later than any of its elements.
        assert(y.to_multiset().count(x[0]) > 0);
        assert(y.contains(x[0]));
        let iy = choose|i: int| 0 <= i < y.len() && y[i] == x[0];
        assert(y[iy] == x[0]);
        crate::laws::lemma_compare_equal_iff(y[0], y[0]);
        if iy != 0 {
            assert(version_le(y[0], y[iy]));
        }
        assert(version_le(y[0], x[0]));
        assert(x.to_multiset().count(y[0]) > 0);
        assert(x.contains(y[0]));
        let ix = choose|i: int| 0 <= i < x.len() && x[i] == y[0];
        assert(x[ix] == y[0]);
        crate::laws::lemma_compare_equal_iff(x[0], x[0]);
        if ix != 0 {
            assert(version_le(x[0], x[ix]));
        }
        assert(version_le(x[0], y[0]));
        crate::laws::lemma_compare_flip(x[0], y[0]);
        crate::laws::lemma_compare_equal_iff(x[0], y[0]);
        assert(x[0] == y[0]);

        let xd = x.drop_first();
        let yd = y.drop_first();
        assert(x.remove(0) =~= xd);
        assert(y.remove(0) =~= yd);
        assert(xd.to_multiset() == x.to_multiset().remove(x[0]));
        assert(yd.to_multiset() == y.to_multiset().remove(y[0]));
        assert(sorted_version(xd)) by {
            assert forall|k: int, l: int| 0 <= k < l < xd.len() implies version_le(
                #[trigger] xd[k],
                #[trigger] xd[l],
            ) by {
                assert(xd[k] == x[k + 1] && xd[l] == x[l + 1]);
            }
        }
        assert(sorted_version(yd)) by {
            assert forall|k: int, l: int| 0 <= k < l < yd.len() implies version_le(
                #[trigger] yd[k],
                #[trigger] yd[l],
            ) by {
                assert(yd[k] == y[k + 1] && yd[l] == y[l + 1]);
            }
        }
        lemma_sorted_permutation_unique(xd, yd);
        assert forall|i: int| 0 <= i < x.len() implies x[i] == y[i] by {
            if i > 0 {
                assert(xd[i - 1] == yd[i - 1]);
            }
        }
        assert(x =~= y);
    }
}

/// Sorts `arr` in place by the version-sort order: afterwards the strings are
/// in order and are, as a multiset, the strings that were there before.
pub fn sort(arr: &mut Vec<&str>)
    ensures
        sorted_version(final(arr).deep_view()),
        final(arr)@.to_multiset() == old(arr)@.to_multiset(),
        final(arr).deep_view().to_multiset() == old(arr).deep_view().to_multiset(),
{
    broadcast use vstd::seq_lib::to_multiset_update;
    broadcast use vstd::seq_lib::group_to_multiset_ensures;
    broadcast use vstd::multiset::group_multiset_axioms;

    let n = arr.len();
    let mut i: usize = 1;
    if n < 2 {
        return ;
    }
    while i < n
        invariant
            1 <= i <= n,
            n == arr@.len(),
            sorted_version(arr.deep_view().take(i as int)),
            arr@.to_multiset() == old(arr)@.to_multiset(),
            arr.deep_view().to_multiset() == old(arr).deep_view().to_multiset(),
        decreases n - i,
    {
        let mut j = i;
        proof {
            let dv = arr.deep_view();
            assert forall|k: int, l: int| 0 <= k < l <= i && l != i implies version_le(
                #[trigger] dv[k],
                #[trigger] dv[l],
            ) by {
                assert(dv.take(i as int)[k] == dv[k]);
                assert(dv.take(i as int)[l] == dv[l]);
            }
        }
        while j > 0
            invariant
                0 <= j <= i < n,
                n == arr@.len(),
                arr@.to_multiset() == old(arr)@.to_multiset(),
                arr.deep_view().to_multiset() == old(arr).deep_view().to_multiset(),
                forall|k: int, l: int|
                    0 <= k < l <= i && l != j ==> version_le(
                        #[trigger] arr.deep_view()[k],
                        #[trigger] arr.deep_view()[l],
                    ),
            ensures
                0 <= j <= i < n,
                n == arr@.len(),
                arr@.to_multiset() == old(arr)@.to_multiset(),
                arr.deep_view().to_multiset() == old(arr).deep_view().to_multiset(),
                forall|k: int, l: int|
                    0 <= k < l <= i && l != j ==> version_le(
                        #[trigger] arr.deep_view()[k],
                        #[trigger] arr.deep_view()[l],
                    ),
                j > 0 ==> version_le(arr.deep_view()[j - 1], arr.deep_view()[j as int]),
            decreases j,
        {
            let x = arr[j - 1];
            let y = arr[j];
            let c = crate::compare::compare(x, y);
            match c {
                Ordering::Greater => {},
                _ => {
                    break ;
                },
            }
            let ghost before = arr@;
            let ghost dvb = arr.deep_view();
            arr[j - 1] = y;
            arr[j] = x;
            proof {
                let dva = arr.deep_view();
                before.to_multiset_ensures();
                dvb.to_multiset_ensures();
                assert(before[j - 1] == x && before[j as int] == y);
                assert(before.contains(x)) by {
                    assert(before[j - 1] == x);
                }
                assert(before.contains(y)) by {
                    assert(before[j as int] == y);
                }
                assert(before.to_multiset().count(x) > 0);
                assert(before.to_multiset().count(y) > 0);
                assert(arr@ =~= before.update(j - 1, y).update(j as int, x));
                vstd::seq_lib::to_multiset_update(before, j - 1, y);
                vstd::seq_lib::to_multiset_update(before.update(j - 1, y), j as int, x);
                assert(arr@.to_multiset() =~= before.to_multiset());
                assert(dvb[j - 1] == x@ && dvb[j as int] == y@);
                assert(dvb.contains(x@)) by {
                    assert(dvb[j - 1] == x@);
                }
                assert(dvb.contains(y@)) by {
                    assert(dvb[j as int] == y@);
                }
                assert(dvb.to_multiset().count(x@) > 0);
                assert(dvb.to_multiset().count(y@) > 0);
                assert(dva =~= dvb.update(j - 1, y@).update(j as int, x@));
                vstd::seq_lib::to_multiset_update(dvb, j - 1, y@);
                vstd::seq_lib::to_multiset_update(dvb.update(j - 1, y@), j as int, x@);
                assert(dva.to_multiset() =~= dvb.to_multiset());
                lemma_compare_flip(x@, y@);
                assert(version_le(y@, x@));
                assert forall|k: int, l: int|
                    0 <= k < l <= i && l != j - 1 implies version_le(
                    #[trigger] dva[k],
                    #[trigger] dva[l],
                ) by {
                    if l == j {
                        if k == j - 1 {
                            assert(dva[k] == y@ && dva[l] == x@);
                        } else {
                            assert(dva[k] == dvb[k] && dva[l] == dvb[j - 1]);
                            assert(version_le(dvb[k], dvb[j - 1]));
                        }
                    } else if l > j {
                        if k == j - 1 {
                            assert(dva[k] == dvb[j as int]);
                            assert(version_le(dvb[j as int], dvb[l]));
                        } else if k == j {
                            assert(dva[k] == dvb[j - 1]);
                            assert(version_le(dvb[j - 1], dvb[l]));
                        } else {
                            assert(version_le(dvb[k], dvb[l]));
                        }
                    } else {
                        assert(dva[k] == dvb[k] && dva[l] == dvb[l]);
                        assert(version_le(dvb[k], dvb[l]));
                    }
                }
            }
            j = j - 1;
        }
        proof {
            let dv = arr.deep_view();
            assert forall|k: int, l: int| 0 <= k < l < i + 1 implies version_le(
                #[trigger] dv[k],
                #[trigger] dv[l],
            ) by {
                if l == j {
                    if k < j - 1 {
                        assert(version_le(dv[k], dv[j - 1]));
                        assert(version_le(dv[j - 1], dv[j as int]));
                        lemma_compare_trans(dv[k], dv[j - 1], dv[j as int]);
                    }
                }
            }
            assert(sorted_version(dv.take(i + 1)));
        }
        i = i + 1;
    }
    proof {
        assert(arr.deep_view().take(n as int) =~= arr.deep_view());
    }
}

} // verus!
