//! Small utilities over vectors of integers: summing, order-preserving
//! deduplication, and filtering by a caller-supplied predicate.

use vstd::prelude::*;

verus! {

/// Mathematical sum of a sequence of `i32` values.
pub open spec fn sum_spec(s: Seq<i32>) -> int
    decreases s.len(),
{
    if s.len() == 0 {
        0
    } else {
        sum_spec(s.drop_last()) + s.last()
    }
}

/// Computes the sum of all elements in the input i32 slice named `slice`.
///
/// Every partial sum must fit in an `i32`, since the addition is performed
/// left to right on `i32` values.
pub fn sum(slice: &[i32]) -> (ans: i32)
    requires
        forall|i: int|
            0 <= i <= slice@.len() ==> i32::MIN <= sum_spec(#[trigger] slice@.take(i)) <= i32::MAX,
    ensures
        ans == sum_spec(slice@),
{
    let mut ans: i32 = 0;
    let mut idx: usize = 0;
    proof {
        assert(slice@.take(0) =~= Seq::<i32>::empty());
    }
    while idx < slice.len()
        invariant
            0 <= idx <= slice@.len(),
            ans == sum_spec(slice@.take(idx as int)),
            forall|i: int|
                0 <= i <= slice@.len() ==> i32::MIN <= sum_spec(#[trigger] slice@.take(i))
                    <= i32::MAX,
        decreases slice@.len() - idx,
    {
        proof {
            assert(slice@.take(idx + 1).drop_last() =~= slice@.take(idx as int));
            assert(slice@.take(idx + 1).last() == slice@[idx as int]);
        }
        ans = ans + slice[idx];
        idx = idx + 1;
    }
    proof {
        assert(slice@.take(slice@.len() as int) =~= slice@);
    }
    ans
}

/// The first instance of each distinct element of `s`, in order of first
/// appearance.
pub open spec fn dedup_spec(s: Seq<i32>) -> Seq<i32>
    decreases s.len(),
{
    if s.len() == 0 {
        Seq::empty()
    } else if dedup_spec(s.drop_last()).contains(s.last()) {
        dedup_spec(s.drop_last())
    } else {
        dedup_spec(s.drop_last()).push(s.last())
    }
}

/// Deduplicates items in the input vector `vs`. Produces a vector containing
/// the first instance of each distinct element of `vs`, preserving the
/// original order.
pub fn dedup(vs: &Vec<i32>) -> (ans: Vec<i32>)
    ensures
        ans@ == dedup_spec(vs@),
        forall|x: i32| ans@.contains(x) <==> vs@.contains(x),
{
    let mut ans: Vec<i32> = Vec::new();
    let mut idx: usize = 0;
    proof {
        assert(vs@.take(0) =~= Seq::<i32>::empty());
    }
    while idx < vs.len()
        invariant
            0 <= idx <= vs@.len(),
            ans@ == dedup_spec(vs@.take(idx as int)),
        decreases vs@.len() - idx,
    {
        proof {
            assert(vs@.take(idx + 1).drop_last() =~= vs@.take(idx as int));
            assert(vs@.take(idx + 1).last() == vs@[idx as int]);
        }
        if !contains_val(&ans, vs[idx]) {
            ans.push(vs[idx]);
        }
        idx = idx + 1;
    }
    proof {
        assert(vs@.take(vs@.len() as int) =~= vs@);
        lemma_dedup_same_elements(vs@);
    }
    ans
}

/// `dedup_spec` keeps exactly the elements of its input.
proof fn lemma_dedup_same_elements(s: Seq<i32>)
    ensures
        forall|x: i32| dedup_spec(s).contains(x) <==> s.contains(x),
    decreases s.len(),
{
    if s.len() > 0 {
        lemma_dedup_same_elements(s.drop_last());
        assert forall|x: i32| s.contains(x) implies dedup_spec(s).contains(x) by {
            if x == s.last() {
                if !dedup_spec(s.drop_last()).contains(x) {
                    assert(dedup_spec(s) == dedup_spec(s.drop_last()).push(s.last()));
                    assert(dedup_spec(s).last() == x);
                }
            } else {
                let i = choose|i: int| 0 <= i < s.len() && s[i] == x;
                assert(s.drop_last()[i] == x);
                assert(s.drop_last().contains(x));
                if dedup_spec(s) != dedup_spec(s.drop_last()) {
                    let j = choose|j: int|
                        0 <= j < dedup_spec(s.drop_last()).len() && dedup_spec(s.drop_last())[j]
                            == x;
                    assert(dedup_spec(s)[j] == x);
                }
            }
        }
        assert forall|x: i32| dedup_spec(s).contains(x) implies s.contains(x) by {
            let j = choose|j: int| 0 <= j < dedup_spec(s).len() && dedup_spec(s)[j] == x;
            if j < dedup_spec(s.drop_last()).len() {
                assert(dedup_spec(s.drop_last())[j] == x);
                assert(dedup_spec(s.drop_last()).contains(x));
                assert(s.drop_last().contains(x));
                let i = choose|i: int| 0 <= i < s.drop_last().len() && s.drop_last()[i] == x;
                assert(s.drop_last() =~= s.subrange(0, s.len() - 1));
                assert(s.subrange(0, s.len() - 1)[i] == s[i]) by {
                    broadcast use vstd::seq::axiom_seq_subrange_index;

                }
                assert(s[i] == x);
            } else {
                assert(x == s.last());
                assert(s[s.len() - 1] == x);
            }
        }
    }
}

/// Whether `v` holds `x`, by linear scan.
fn contains_val(v: &Vec<i32>, x: i32) -> (r: bool)
    ensures
        r == v@.contains(x),
{
    let mut idx: usize = 0;
    while idx < v.len()
        invariant
            0 <= idx <= v@.len(),
            forall|i: int| 0 <= i < idx ==> v@[i] != x,
        decreases v@.len() - idx,
    {
        if v[idx] == x {
            return true;
        }
        idx = idx + 1;
    }
    false
}

/// The elements of `s` kept at the positions where `keep` is true.
pub open spec fn filter_by(s: Seq<i32>, keep: Seq<bool>) -> Seq<i32>
    decreases s.len(),
{
    if s.len() == 0 || keep.len() == 0 {
        Seq::empty()
    } else if keep.last() {
        filter_by(s.drop_last(), keep.drop_last()).push(s.last())
    } else {
        filter_by(s.drop_last(), keep.drop_last())
    }
}

/// Filters a vector `vs` using a predicate `pred` (a function from `i32` to
/// `bool`). Returns a new vector containing only elements that satisfy `pred`.
///
/// The result is exactly the input restricted to some sequence of verdicts,
/// each of which the predicate can actually return for that element.
pub fn filter<F: Fn(i32) -> bool>(vs: &Vec<i32>, pred: F) -> (ans: Vec<i32>)
    requires
        forall|x: i32| vs@.contains(x) ==> call_requires(pred, (x,)),
    ensures
        exists|keep: Seq<bool>|
            {
                &&& keep.len() == vs@.len()
                &&& (forall|i: int|
                    0 <= i < vs@.len() ==> call_ensures(pred, (vs@[i],), #[trigger] keep[i]))
                &&& ans@ == filter_by(vs@, keep)
            },
{
    let mut ans: Vec<i32> = Vec::new();
    let mut idx: usize = 0;
    let ghost mut keep: Seq<bool> = Seq::empty();
    while idx < vs.len()
        invariant
            0 <= idx <= vs@.len(),
            keep.len() == idx,
            forall|i: int| 0 <= i < idx ==> call_ensures(pred, (vs@[i],), #[trigger] keep[i]),
            ans@ == filter_by(vs@.take(idx as int), keep),
            forall|x: i32| vs@.contains(x) ==> call_requires(pred, (x,)),
        decreases vs@.len() - idx,
    {
        let x = vs[idx];
        assert(vs@.contains(x));
        let verdict = pred(x);
        let ghost prev_keep = keep;
        proof {
            keep = keep.push(verdict);
        }
        if verdict {
            ans.push(x);
        }
        idx = idx + 1;
        proof {
            assert(vs@.take(idx as int).drop_last() =~= vs@.take(idx - 1));
            assert(keep.drop_last() =~= prev_keep);
            assert(keep.last() == verdict);
        }
    }
    proof {
        assert(vs@.take(vs@.len() as int) =~= vs@);
    }
    ans
}

} // verus!
