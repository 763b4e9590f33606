//! Interleaving zeros into a sequence at given positions.
use vstd::prelude::*;

verus! {

/// Positions in strictly ascending order, each inside a result of
/// `n + zeros.len()` elements.
pub open spec fn insertion_points(zeros: Seq<usize>, n: int) -> bool {
    &&& forall|a: int, b: int| 0 <= a < b < zeros.len() ==> #[trigger] zeros[a] < #[trigger] zeros[b]
    &&& forall|a: int| 0 <= a < zeros.len() ==> #[trigger] zeros[a] < n + zeros.len()
}

/// Position `p` lies after the first `k` insertion points and before the
/// rest.
pub open spec fn between(zeros: Seq<usize>, k: int, p: int) -> bool {
    &&& 0 <= k <= zeros.len()
    &&& (k == 0 || zeros[k - 1] < p)
    &&& (k == zeros.len() || p < zeros[k])
}

proof fn lemma_gap(zeros: Seq<usize>, a: int, b: int)
    requires
        forall|x: int, y: int| 0 <= x < y < zeros.len() ==> #[trigger] zeros[x] < #[trigger] zeros[y],
        0 <= a <= b < zeros.len(),
    ensures
        zeros[b] - zeros[a] >= b - a,
    decreases b - a,
{
    if a < b {
        lemma_gap(zeros, a, b - 1);
        assert(zeros[b - 1] < zeros[b]);
    }
}

/// `row` with a zero inserted at each of the positions `zeros`: the result
/// has a zero at every one of them, and the elements of `row`, in order,
/// everywhere else.
pub fn zero_inserter(row: Vec<i32>, zeros: Vec<usize>) -> (r: Vec<i32>)
    requires
        insertion_points(zeros@, row@.len() as int),
        row@.len() + zeros@.len() <= usize::MAX,
    ensures
        r@.len() == row@.len() + zeros@.len(),
        forall|k: int| 0 <= k < zeros@.len() ==> r@[#[trigger] zeros@[k] as int] == 0,
        forall|p: int, k: int|
            0 <= p < r@.len() && #[trigger] between(zeros@, k, p) ==> #[trigger] r@[p] == row@[p
                - k],
{
    let total = row.len() + zeros.len();
    let mut out: Vec<i32> = Vec::new();
    let mut iter_idx: usize = 0;
    let mut zeros_idx: usize = 0;
    while out.len() < total
        invariant
            insertion_points(zeros@, row@.len() as int),
            total == row@.len() + zeros@.len(),
            out@.len() <= total,
            iter_idx + zeros_idx == out@.len(),
            iter_idx <= row@.len(),
            zeros_idx <= zeros@.len(),
            forall|k: int| 0 <= k < zeros_idx ==> #[trigger] zeros@[k] < out@.len(),
            zeros_idx < zeros@.len() ==> zeros@[zeros_idx as int] >= out@.len(),
            forall|k: int| 0 <= k < zeros_idx ==> out@[#[trigger] zeros@[k] as int] == 0,
            forall|p: int, k: int|
                0 <= p < out@.len() && #[trigger] between(zeros@, k, p) ==> #[trigger] out@[p]
                    == row@[p - k],
        decreases total - out@.len(),
    {
        let i = out.len();
        let ghost before = out@;
        if zeros_idx < zeros.len() && zeros[zeros_idx] == i {
            out.push(0);
            proof {
                assert forall|p: int, k: int|
                    0 <= p < out@.len() && #[trigger] between(zeros@, k, p) implies #[trigger] out@[p]
                    == row@[p - k] by {
                    if p == i {
                        if k < zeros_idx {
                            assert(zeros@[k] < zeros@[zeros_idx as int]);
                        } else if k > zeros_idx {
                            assert(zeros@[zeros_idx as int] <= zeros@[k - 1]);
                        }
                    } else {
                        assert(out@[p] == before[p]);
                    }
                }
                assert forall|k: int| 0 <= k < zeros_idx + 1 implies out@[#[trigger] zeros@[k] as int]
                    == 0 by {
                    if k < zeros_idx {
                        assert(out@[zeros@[k] as int] == before[zeros@[k] as int]);
                    }
                }
                if zeros_idx + 1 < zeros@.len() {
                    assert(zeros@[zeros_idx as int] < zeros@[zeros_idx + 1]);
                }
            }
            zeros_idx = zeros_idx + 1;
        } else {
            proof {
                if iter_idx == row@.len() {
                    assert(zeros_idx < zeros@.len());
                    lemma_gap(zeros@, zeros_idx as int, zeros@.len() - 1);
                    assert(zeros@[zeros@.len() - 1] < row@.len() + zeros@.len());
                }
            }
            out.push(row[iter_idx]);
            proof {
                assert forall|p: int, k: int|
                    0 <= p < out@.len() && #[trigger] between(zeros@, k, p) implies #[trigger] out@[p]
                    == row@[p - k] by {
                    if p == i {
                        if k < zeros_idx {
                            if zeros_idx > 0 {
                                assert(zeros@[k] <= zeros@[zeros_idx - 1]);
                            }
                        } else if k > zeros_idx {
                            assert(zeros@[zeros_idx as int] <= zeros@[k - 1]);
                        }
                    } else {
                        assert(out@[p] == before[p]);
                    }
                }
                assert forall|k: int| 0 <= k < zeros_idx implies out@[#[trigger] zeros@[k] as int]
                    == 0 by {
                    assert(out@[zeros@[k] as int] == before[zeros@[k] as int]);
                }
            }
            iter_idx = iter_idx + 1;
        }
    }
    proof {
        assert forall|k: int| 0 <= k < zeros@.len() implies out@[#[trigger] zeros@[k] as int] == 0 by {
            if k >= zeros_idx {
                lemma_gap(zeros@, zeros_idx as int, k);
            }
        }
    }
    out
}

} // verus!
