//! Successive differences and running sums, each the inverse of the other.
use crate::align::fits_i32;
use vstd::prelude::*;

verus! {

/// The integers that a sequence of `i32` holds.
pub open spec fn ints(s: Seq<i32>) -> Seq<int> {
    s.map_values(|x: i32| x as int)
}

pub open spec fn sum(s: Seq<int>) -> int
    decreases s.len(),
{
    if s.len() == 0 {
        0
    } else {
        sum(s.drop_last()) + s.last()
    }
}

/// Element `k` is the sum of elements `0..=k`.
pub open spec fn running(s: Seq<int>) -> Seq<int> {
    Seq::new(s.len(), |k: int| sum(s.take(k + 1)))
}

/// The first element, then each element minus the one before it.
pub open spec fn diffs(s: Seq<int>) -> Seq<int> {
    Seq::new(s.len(), |k: int| if k == 0 { s[0] } else { s[k] - s[k - 1] })
}

pub open spec fn scale(c: int, s: Seq<int>) -> Seq<int> {
    s.map_values(|x: int| c * x)
}

/// Accumulating the differences of a sequence gives the sequence back.
pub proof fn lemma_running_of_diffs(s: Seq<int>)
    ensures
        running(diffs(s)) == s,
{
    let d = diffs(s);
    assert forall|k: int| 0 <= k < s.len() implies #[trigger] running(d)[k] == s[k] by {
        lemma_sum_of_diffs_prefix(s, k);
    }
    assert(running(d) =~= s);
}

proof fn lemma_sum_of_diffs_prefix(s: Seq<int>, k: int)
    requires
        0 <= k < s.len(),
    ensures
        sum(diffs(s).take(k + 1)) == s[k],
    decreases k,
{
    let d = diffs(s);
    assert(d.take(k + 1).drop_last() =~= d.take(k));
    if k == 0 {
        assert(d.take(0) =~= Seq::<int>::empty());
        assert(sum(d.take(0)) == 0);
    } else {
        lemma_sum_of_diffs_prefix(s, k - 1);
    }
    assert(d.take(k + 1).last() == d[k]);
}

/// Differences commute with scaling.
pub proof fn lemma_diffs_scale(c: int, s: Seq<int>)
    ensures
        diffs(scale(c, s)) == scale(c, diffs(s)),
{
    assert forall|k: int| 0 < k < s.len() implies #[trigger] diffs(scale(c, s))[k] == c * (s[k]
        - s[k - 1]) by {
        assert(c * s[k] - c * s[k - 1] == c * (s[k] - s[k - 1])) by (nonlinear_arith);
    }
    assert(diffs(scale(c, s)) =~= scale(c, diffs(s)));
}

/// Produces the first value as it is, then the difference of each value and
/// the one before it.
pub fn take_diffs(values: Vec<i32>) -> (r: Vec<i32>)
    requires
        forall|k: int| 0 < k < values@.len() ==> fits_i32(#[trigger] values@[k] - values@[k - 1]),
    ensures
        r@.len() == values@.len(),
        ints(r@) == diffs(ints(values@)),
{
    let mut r: Vec<i32> = Vec::new();
    let mut previous: Option<i32> = None;
    let mut i: usize = 0;
    while i < values.len()
        invariant
            i <= values@.len(),
            r@.len() == i,
            forall|k: int| 0 < k < values@.len() ==> fits_i32(#[trigger] values@[k] - values@[k - 1]),
            previous == (if i == 0 { None } else { Some(values@[i - 1]) }),
            forall|k: int|
                0 <= k < i ==> #[trigger] r@[k] as int == diffs(ints(values@))[k],
        decreases values@.len() - i,
    {
        let value: i32 = values[i];
        match previous {
            Some(prev) => r.push(value - prev),
            None => r.push(value),
        }
        previous = Some(value);
        i = i + 1;
    }
    assert(ints(r@) =~= diffs(ints(values@)));
    assert(r@.len() == ints(r@).len());
    r
}

/// Replaces each element by the sum of it and all the elements before it.
pub fn accumulate(vec: &mut Vec<i32>)
    requires
        forall|k: int| 0 <= k < old(vec)@.len() ==> fits_i32(#[trigger] running(ints(old(vec)@))[k]),
    ensures
        final(vec)@.len() == old(vec)@.len(),
        ints(final(vec)@) == running(ints(old(vec)@)),
{
    let ghost s = ints(vec@);
    let mut i: usize = 1;
    if vec.len() == 0 {
        assert(ints(vec@) =~= running(s));
        assert(vec@.len() == ints(vec@).len());
        return;
    }
    assert(s.take(1).drop_last() =~= Seq::<int>::empty());
    assert(sum(Seq::<int>::empty()) == 0);
    assert(running(s)[0] == s[0]);
    while i < vec.len()
        invariant
            1 <= i <= vec@.len(),
            s.len() == vec@.len(),
            s == ints(old(vec)@),
            forall|k: int| 0 <= k < s.len() ==> fits_i32(#[trigger] running(s)[k]),
            forall|k: int| 0 <= k < i ==> #[trigger] vec@[k] as int == running(s)[k],
            forall|k: int| i <= k < s.len() ==> #[trigger] vec@[k] as int == s[k],
        decreases vec@.len() - i,
    {
        assert(s.take(i + 1).drop_last() =~= s.take(i as int));
        assert(running(s)[i as int] == running(s)[i - 1] + s[i as int]);
        let next = vec[i] + vec[i - 1];
        vec.set(i, next);
        i = i + 1;
    }
    assert(ints(vec@) =~= running(s));
    assert(vec@.len() == ints(vec@).len());
}

} // verus!
