//! Grouping runs of equal values, keeping each occurrence's position and shift.
use vstd::prelude::*;

verus! {

/// One entry per distinct value: the value, and the (position, shift) of
/// each occurrence that carried it.
pub type PointersAndShifts = Vec<(i32, Vec<(usize, u32)>)>;

/// The occurrences of one group, each tagged again with the group's value.
pub open spec fn expand_group(g: (i32, Vec<(usize, u32)>)) -> Seq<(usize, (i32, u32))> {
    g.1@.map_values(|o: (usize, u32)| (o.0, (g.0, o.1)))
}

/// All groups expanded, in order: the inverse of grouping.
pub open spec fn ungroup(gs: Seq<(i32, Vec<(usize, u32)>)>) -> Seq<(usize, (i32, u32))>
    decreases gs.len(),
{
    if gs.len() == 0 {
        Seq::empty()
    } else {
        ungroup(gs.drop_last()) + expand_group(gs.last())
    }
}

pub open spec fn sorted_by_value(s: Seq<(usize, (i32, u32))>) -> bool {
    forall|a: int, b: int| 0 <= a <= b < s.len() ==> #[trigger] s[a].1.0 <= #[trigger] s[b].1.0
}

pub open spec fn ascending_values(gs: Seq<(i32, Vec<(usize, u32)>)>) -> bool {
    forall|k: int, l: int| 0 <= k < l < gs.len() ==> #[trigger] gs[k].0 < #[trigger] gs[l].0
}

/// Merges adjacent occurrences of equal value into one group. The groups,
/// expanded in order, are exactly the input, so every input position lands
/// in exactly one group; no group is empty, and neighbouring groups differ
/// in value, so on input sorted by value the groups ascend strictly.
pub fn group_indices_by_elem(indexed: Vec<(usize, (i32, u32))>) -> (result: PointersAndShifts)
    ensures
        ungroup(result@) == indexed@,
        forall|k: int| 0 <= k < result@.len() ==> (#[trigger] result@[k]).1@.len() > 0,
        forall|k: int|
            0 <= k < result@.len() - 1 ==> #[trigger] result@[k].0 != result@[k + 1].0,
        sorted_by_value(indexed@) ==> ascending_values(result@),
{
    let mut result: PointersAndShifts = Vec::new();
    let mut i: usize = 0;
    while i < indexed.len()
        invariant
            i <= indexed@.len(),
            ungroup(result@) == indexed@.take(i as int),
            forall|k: int| 0 <= k < result@.len() ==> (#[trigger] result@[k]).1@.len() > 0,
            forall|k: int|
                0 <= k < result@.len() - 1 ==> #[trigger] result@[k].0 != result@[k + 1].0,
            i == 0 <==> result@.len() == 0,
            i > 0 ==> result@.last().0 == indexed@[i - 1].1.0,
            sorted_by_value(indexed@) ==> ascending_values(result@),
        decreases indexed@.len() - i,
    {
        let (pos, (elem, shift)) = indexed[i];
        let ghost entry = indexed@[i as int];
        assert(indexed@.take(i + 1) =~= indexed@.take(i as int).push(entry));
        let n = result.len();
        if n > 0 && result[n - 1].0 == elem {
            let ghost before = result@;
            let (el, mut is) = result.pop().unwrap();
            let ghost old_is = is@;
            is.push((pos, shift));
            result.push((el, is));
            assert(result@.drop_last() =~= before.drop_last());
            assert(expand_group(result@.last()) =~= expand_group(before.last()).push(entry));
            assert(ungroup(result@) =~= ungroup(before).push(entry));
            assert forall|k: int| 0 <= k < result@.len() - 1 implies #[trigger] result@[k].0
                != result@[k + 1].0 by {
                assert(result@[k] == before[k]);
                assert(result@[k + 1].0 == before[k + 1].0);
            }
            assert forall|k: int| 0 <= k < result@.len() implies (#[trigger] result@[k]).1@.len()
                > 0 by {
                if k < n - 1 {
                    assert(result@[k] == before[k]);
                }
            }
            proof {
                if sorted_by_value(indexed@) {
                    assert forall|k: int, l: int| 0 <= k < l < result@.len() implies #[trigger] result@[k].0
                        < #[trigger] result@[l].0 by {
                        assert(result@[k].0 == before[k].0);
                        assert(result@[l].0 == before[l].0);
                    }
                }
            }
        } else {
            let ghost before = result@;
            let mut is: Vec<(usize, u32)> = Vec::new();
            is.push((pos, shift));
            result.push((elem, is));
            assert(result@.drop_last() =~= before);
            assert(expand_group(result@.last()) =~= seq![entry]);
            assert(ungroup(result@) =~= ungroup(before).push(entry));
            proof {
                if sorted_by_value(indexed@) {
                    assert forall|k: int, l: int| 0 <= k < l < result@.len() implies #[trigger] result@[k].0
                        < #[trigger] result@[l].0 by {
                        if l == n && k < n - 1 {
                            assert(before[k].0 < before[n - 1].0);
                            assert(indexed@[i - 1].1.0 <= indexed@[i as int].1.0);
                        } else if l == n {
                            assert(indexed@[i - 1].1.0 <= indexed@[i as int].1.0);
                        }
                    }
                }
            }
        }
        i = i + 1;
    }
    assert(indexed@.take(indexed@.len() as int) =~= indexed@);
    result
}

/// Every occurrence of every group, tagged with the group's value, is an
/// element of the expansion.
pub proof fn lemma_ungroup_contains(gs: Seq<(i32, Vec<(usize, u32)>)>, k: int, i: int)
    requires
        0 <= k < gs.len(),
        0 <= i < gs[k].1@.len(),
    ensures
        ungroup(gs).contains((gs[k].1@[i].0, (gs[k].0, gs[k].1@[i].1))),
    decreases gs.len(),
{
    let x = (gs[k].1@[i].0, (gs[k].0, gs[k].1@[i].1));
    let front = ungroup(gs.drop_last());
    if k == gs.len() - 1 {
        assert(expand_group(gs.last())[i] == x);
        assert((front + expand_group(gs.last()))[front.len() + i] == x);
    } else {
        lemma_ungroup_contains(gs.drop_last(), k, i);
        let j = choose|j: int| 0 <= j < front.len() && front[j] == x;
        assert((front + expand_group(gs.last()))[j] == x);
    }
}

/// Every element of the expansion is an occurrence of some group, tagged
/// with that group's value.
pub proof fn lemma_ungroup_member(gs: Seq<(i32, Vec<(usize, u32)>)>, j: int)
    requires
        0 <= j < ungroup(gs).len(),
    ensures
        exists|k: int, i: int|
            0 <= k < gs.len() && 0 <= i < gs[k].1@.len() && ungroup(gs)[j] == (
            #[trigger] gs[k].1@[i].0,
            (gs[k].0, gs[k].1@[i].1),
        ),
    decreases gs.len(),
{
    let front = ungroup(gs.drop_last());
    let k = gs.len() - 1;
    if j < front.len() {
        lemma_ungroup_member(gs.drop_last(), j);
        let (k0, i0) = choose|k0: int, i0: int|
            0 <= k0 < gs.drop_last().len() && 0 <= i0 < gs.drop_last()[k0].1@.len()
                && front[j] == (#[trigger] gs.drop_last()[k0].1@[i0].0, (
                gs.drop_last()[k0].0,
                gs.drop_last()[k0].1@[i0].1,
            ));
        assert(gs[k0] == gs.drop_last()[k0]);
        assert(ungroup(gs)[j] == front[j]);
    } else {
        let i = j - front.len();
        assert(ungroup(gs)[j] == expand_group(gs.last())[i]);
        assert(ungroup(gs)[j] == (gs[k].1@[i].0, (gs[k].0, gs[k].1@[i].1)));
    }
}

/// Where group `k`'s occurrences begin in the expansion.
pub open spec fn group_start(gs: Seq<(i32, Vec<(usize, u32)>)>, k: int) -> int {
    ungroup(gs.take(k)).len() as int
}

/// Occurrence `i` of group `k` stands at `group_start(gs, k) + i` in the
/// expansion.
pub proof fn lemma_ungroup_at(gs: Seq<(i32, Vec<(usize, u32)>)>, k: int, i: int)
    requires
        0 <= k < gs.len(),
        0 <= i < gs[k].1@.len(),
    ensures
        0 <= group_start(gs, k) + i < ungroup(gs).len(),
        ungroup(gs)[group_start(gs, k) + i] == (gs[k].1@[i].0, (gs[k].0, gs[k].1@[i].1)),
    decreases gs.len(),
{
    let front = ungroup(gs.drop_last());
    if k == gs.len() - 1 {
        assert(gs.take(k) =~= gs.drop_last());
        assert(expand_group(gs.last())[i] == (gs[k].1@[i].0, (gs[k].0, gs[k].1@[i].1)));
    } else {
        assert(gs.take(k) =~= gs.drop_last().take(k));
        assert(gs.drop_last()[k] == gs[k]);
        lemma_ungroup_at(gs.drop_last(), k, i);
    }
}

} // verus!
