//! A conflict-free schedule for parallel pair updates.
//!
//! In the parallel mode one worker relaxes one pair, and two pairs that
//! share a node must never run at the same time: a pair update reads and
//! writes both endpoint positions non-atomically. Rather than guard the
//! position array with per-node locks at run time, the pairs of one sweep
//! are partitioned beforehand into batches whose members share no node.
//! Dispatching one batch at a time, with a barrier between batches, gives
//! every update exclusive access to its two endpoints with no locking and
//! no deadlock hazard.

use vstd::prelude::*;

use crate::pairs::EdgeInfo;

verus! {

/// The batches as plain sequences.
pub open spec fn batches_view(batches: Seq<Vec<usize>>) -> Seq<Seq<usize>> {
    batches.map_values(|r: Vec<usize>| r@)
}

/// Two pairs touch a common node.
pub open spec fn pairs_share_node(a: EdgeInfo, b: EdgeInfo) -> bool {
    a.u == b.u || a.u == b.v || a.v == b.u || a.v == b.v
}

/// Every batch entry is a pair index below `num_pairs`.
pub open spec fn batch_entries_in_range(batches: Seq<Seq<usize>>, num_pairs: nat) -> bool {
    forall|b: int, i: int|
        0 <= b < batches.len() && 0 <= i < batches[b].len() ==> (#[trigger] batches[b][i])
            < num_pairs
}

/// Pair index `k` stands somewhere in the batch rows.
pub open spec fn scheduled_in_rows(batches: Seq<Vec<usize>>, k: usize) -> bool {
    exists|b: int, i: int|
        0 <= b < batches.len() && 0 <= i < batches[b]@.len() && (#[trigger] batches[b]@[i]) == k
}

/// Pair index `k` stands somewhere in the batches.
pub open spec fn scheduled_in(batches: Seq<Seq<usize>>, k: usize) -> bool {
    exists|b: int, i: int|
        0 <= b < batches.len() && 0 <= i < batches[b].len() && (#[trigger] batches[b][i]) == k
}

/// No pair index stands in the batches twice.
pub open spec fn batches_distinct(batches: Seq<Seq<usize>>) -> bool {
    forall|b1: int, i1: int, b2: int, i2: int|
        #![trigger batches[b1][i1], batches[b2][i2]]
        0 <= b1 < batches.len() && 0 <= i1 < batches[b1].len() && 0 <= b2 < batches.len() && 0
            <= i2 < batches[b2].len() && (b1 != b2 || i1 != i2) ==> batches[b1][i1]
            != batches[b2][i2]
}

/// Within one batch no two pairs share a node: its updates are free of
/// write conflicts, so any dispatch order within the batch reads and
/// writes race-free positions.
pub open spec fn batches_conflict_free(pairs: Seq<EdgeInfo>, batches: Seq<Seq<usize>>) -> bool {
    forall|b: int, i1: int, i2: int|
        #![trigger batches[b][i1], batches[b][i2]]
        0 <= b < batches.len() && 0 <= i1 < batches[b].len() && 0 <= i2 < batches[b].len() && i1
            != i2 ==> !pairs_share_node(
            pairs[batches[b][i1] as int],
            pairs[batches[b][i2] as int],
        )
}

/// Pair `e` shares a node with some member of `batch`.
pub open spec fn conflicts_with_batch(pairs: Seq<EdgeInfo>, e: EdgeInfo, batch: Seq<usize>) -> bool {
    exists|i2: int|
        0 <= i2 < batch.len() && pairs_share_node(e, pairs[(#[trigger] batch[i2]) as int])
}

/// Each pair sits in the first batch that could take it: it conflicts with
/// some member of every earlier batch.
pub open spec fn batches_first_fit(pairs: Seq<EdgeInfo>, batches: Seq<Seq<usize>>) -> bool {
    forall|b: int, i: int, b2: int|
        #![trigger batches[b][i], batches[b2]]
        0 <= b < batches.len() && 0 <= i < batches[b].len() && 0 <= b2 < b
            ==> conflicts_with_batch(pairs, pairs[batches[b][i] as int], batches[b2])
}

/// Within each batch the pair indices ascend.
pub open spec fn batch_rows_ascending(batches: Seq<Seq<usize>>) -> bool {
    forall|b: int, i1: int, i2: int|
        #![trigger batches[b][i1], batches[b][i2]]
        0 <= b < batches.len() && 0 <= i1 < i2 < batches[b].len() ==> batches[b][i1]
            < batches[b][i2]
}

/// Partition the pair indices `0 .. pairs.len()` into conflict-free
/// batches, greedily: each pair goes to the first batch in which it shares
/// no node with any member. Together the clauses pin the schedule: every
/// index appears exactly once, rows ascend, and each pair conflicts with
/// every earlier batch.
#[verifier::loop_isolation(false)]
#[verifier::rlimit(100)]
pub fn plan_conflict_free_batches(pairs: &Vec<EdgeInfo>, node_size: usize) -> (batches: Vec<
    Vec<usize>,
>)
    requires
        forall|p: int|
            0 <= p < pairs@.len() ==> (#[trigger] pairs@[p]).u < node_size && pairs@[p].v
                < node_size,
    ensures
        batch_entries_in_range(batches_view(batches@), pairs@.len()),
        forall|k: usize|
            k < pairs@.len() ==> #[trigger] scheduled_in(batches_view(batches@), k),
        batches_distinct(batches_view(batches@)),
        batches_conflict_free(pairs@, batches_view(batches@)),
        batches_first_fit(pairs@, batches_view(batches@)),
        batch_rows_ascending(batches_view(batches@)),
        forall|b: int| 0 <= b < batches@.len() ==> (#[trigger] batches@[b])@.len() > 0,
{
    let mut batches: Vec<Vec<usize>> = Vec::new();
    let mut used: Vec<Vec<bool>> = Vec::new();
    let num_pairs: usize = pairs.len();
    for k in 0..num_pairs
        invariant
            used@.len() == batches@.len(),
            forall|b: int| 0 <= b < used@.len() ==> (#[trigger] used@[b])@.len() == node_size,
            forall|b: int| 0 <= b < batches@.len() ==> (#[trigger] batches@[b])@.len() > 0,
            forall|b: int, i: int|
                0 <= b < batches@.len() && 0 <= i < batches@[b]@.len() ==> (
                #[trigger] batches@[b]@[i]) < k,
            forall|k2: usize| k2 < k ==> #[trigger] scheduled_in_rows(batches@, k2),
            forall|b1: int, i1: int, b2: int, i2: int|
                #![trigger batches@[b1]@[i1], batches@[b2]@[i2]]
                0 <= b1 < batches@.len() && 0 <= i1 < batches@[b1]@.len() && 0 <= b2
                    < batches@.len() && 0 <= i2 < batches@[b2]@.len() && (b1 != b2 || i1 != i2)
                    ==> batches@[b1]@[i1] != batches@[b2]@[i2],
            forall|b: int, i1: int, i2: int|
                #![trigger batches@[b]@[i1], batches@[b]@[i2]]
                0 <= b < batches@.len() && 0 <= i1 < batches@[b]@.len() && 0 <= i2
                    < batches@[b]@.len() && i1 != i2 ==> !pairs_share_node(
                    pairs@[batches@[b]@[i1] as int],
                    pairs@[batches@[b]@[i2] as int],
                ),
            forall|b: int, i: int, b2: int|
                #![trigger batches@[b]@[i], used@[b2]]
                0 <= b < batches@.len() && 0 <= i < batches@[b]@.len() && 0 <= b2 < b ==> (
                used@[b2]@[pairs@[batches@[b]@[i] as int].u as int] || used@[b2]@[pairs@[batches@[b]@[i] as int].v as int]),
            forall|b: int, i1: int, i2: int|
                #![trigger batches@[b]@[i1], batches@[b]@[i2]]
                0 <= b < batches@.len() && 0 <= i1 < i2 < batches@[b]@.len() ==> batches@[b]@[i1]
                    < batches@[b]@[i2],
            forall|b: int, i: int|
                0 <= b < batches@.len() && 0 <= i < batches@[b]@.len() ==> (used@[b]@[pairs@[(
                #[trigger] batches@[b]@[i]) as int].u as int] && used@[b]@[pairs@[batches@[b]@[i] as int].v as int]),
            forall|b: int, x: int|
                0 <= b < used@.len() && 0 <= x < node_size && (#[trigger] used@[b]@[x]) ==> exists|
                    i: int,
                |
                    0 <= i < batches@[b]@.len() && (pairs@[(#[trigger] batches@[b]@[i]) as int].u
                        == x || pairs@[batches@[b]@[i] as int].v == x),
    {
        let ghost batches_start = batches@;
        let pu: usize = pairs[k].u;
        let pv: usize = pairs[k].v;
        let mut b: usize = 0;
        while b < batches.len() && (used[b][pu] || used[b][pv])
            invariant
                b <= batches@.len(),
                forall|b2: int| 0 <= b2 < b ==> (#[trigger] used@[b2])@[pu as int] || used@[b2]@[pv as int],
            decreases batches@.len() - b,
        {
            b = b + 1;
        }
        if b == batches.len() {
            batches.push(Vec::new());
            let mut row: Vec<bool> = Vec::new();
            while row.len() < node_size
                invariant
                    row@.len() <= node_size,
                    forall|x: int| 0 <= x < row@.len() ==> !(#[trigger] row@[x]),
                decreases node_size - row@.len(),
            {
                row.push(false);
            }
            used.push(row);
        }
        let ghost batches_pre = batches@;
        let ghost used_pre = used@;
        batches[b].push(k);
        used[b][pu] = true;
        used[b][pv] = true;
        proof {
            let bi = b as int;
            assert(batches@[bi]@ == batches_pre[bi]@.push(k));
            assert(batches@[bi]@.last() == k);
            assert forall|k2: usize| k2 < k + 1 implies #[trigger] scheduled_in_rows(
                batches@,
                k2,
            ) by {
                if k2 == k {
                    assert(batches@[bi]@[batches@[bi]@.len() - 1] == k2);
                } else {
                    assert(scheduled_in_rows(batches_start, k2));
                    let (b2, i) = choose|b2: int, i: int|
                        0 <= b2 < batches_start.len() && 0 <= i < batches_start[b2]@.len() && (
                        #[trigger] batches_start[b2]@[i]) == k2;
                    assert(batches_start[b2]@ == batches_pre[b2]@);
                    if b2 == bi {
                        assert(batches@[b2]@[i] == batches_pre[b2]@[i]);
                    }
                    assert(batches@[b2]@[i] == k2);
                }
            };
            assert forall|i2: int|
                0 <= i2 < batches@[bi]@.len() - 1 implies !pairs_share_node(
                pairs@[k as int],
                pairs@[batches@[bi]@[i2] as int],
            ) by {
                assert(batches_pre[bi]@[i2] == batches@[bi]@[i2]);
                assert(used_pre[bi]@[pairs@[batches_pre[bi]@[i2] as int].u as int]);
                assert(used_pre[bi]@[pairs@[batches_pre[bi]@[i2] as int].v as int]);
            };
            assert forall|b3: int, i3: int, b2: int|
                #![trigger batches@[b3]@[i3], used@[b2]]
                0 <= b3 < batches@.len() && 0 <= i3 < batches@[b3]@.len() && 0 <= b2
                    < b3 implies (used@[b2]@[pairs@[batches@[b3]@[i3] as int].u as int]
                || used@[b2]@[pairs@[batches@[b3]@[i3] as int].v as int]) by {
                assert(used@[b2]@.len() == used_pre[b2]@.len());
                assert forall|x: int|
                    0 <= x < used_pre[b2]@.len() && used_pre[b2]@[x] implies used@[b2]@[x] by {};
                if b3 == bi && i3 == batches@[bi]@.len() - 1 {
                    assert(used_pre[b2]@[pu as int] || used_pre[b2]@[pv as int]);
                } else {
                    if b3 == bi {
                        assert(batches@[b3]@[i3] == batches_pre[b3]@[i3]);
                    }
                }
            };
            assert forall|b2: int, x: int|
                0 <= b2 < used@.len() && 0 <= x < node_size && (#[trigger] used@[b2]@[x]) implies exists|
                i: int,
            |
                0 <= i < batches@[b2]@.len() && (pairs@[(#[trigger] batches@[b2]@[i]) as int].u == x
                    || pairs@[batches@[b2]@[i] as int].v == x) by {
                if b2 == bi && (x == pu as int || x == pv as int) {
                    assert(batches@[bi]@[batches@[bi]@.len() - 1] == k);
                } else {
                    assert(used_pre[b2]@[x]);
                    let i = choose|i: int|
                        0 <= i < batches_pre[b2]@.len() && (pairs@[(
                        #[trigger] batches_pre[b2]@[i]) as int].u == x
                            || pairs@[batches_pre[b2]@[i] as int].v == x);
                    assert(batches@[b2]@[i] == batches_pre[b2]@[i]);
                }
            };
        }
    }
    proof {
        let bv = batches_view(batches@);
        assert(bv.len() == batches@.len());
        assert forall|b: int| 0 <= b < bv.len() implies (#[trigger] bv[b]) == batches@[b]@ by {};
        assert forall|b: int, i: int, b2: int|
            #![trigger bv[b][i], bv[b2]]
            0 <= b < bv.len() && 0 <= i < bv[b].len() && 0 <= b2 < b implies conflicts_with_batch(
            pairs@,
            pairs@[bv[b][i] as int],
            bv[b2],
        ) by {
            let e = pairs@[batches@[b]@[i] as int];
            assert(used@[b2]@[e.u as int] || used@[b2]@[e.v as int]);
            if used@[b2]@[e.u as int] {
                let i2 = choose|i2: int|
                    0 <= i2 < batches@[b2]@.len() && (pairs@[(
                    #[trigger] batches@[b2]@[i2]) as int].u == e.u as int || pairs@[batches@[b2]@[i2] as int].v
                        == e.u as int);
                assert(0 <= i2 < bv[b2].len() && pairs_share_node(
                    e,
                    pairs@[(bv[b2][i2]) as int],
                ));
            } else {
                let i2 = choose|i2: int|
                    0 <= i2 < batches@[b2]@.len() && (pairs@[(
                    #[trigger] batches@[b2]@[i2]) as int].u == e.v as int || pairs@[batches@[b2]@[i2] as int].v
                        == e.v as int);
                assert(0 <= i2 < bv[b2].len() && pairs_share_node(
                    e,
                    pairs@[(bv[b2][i2]) as int],
                ));
            }
        };
        assert(batches_first_fit(pairs@, bv));
        assert forall|k: usize| k < pairs@.len() implies #[trigger] scheduled_in(bv, k) by {
            assert(scheduled_in_rows(batches@, k));
            let (b2, i) = choose|b2: int, i: int|
                0 <= b2 < batches@.len() && 0 <= i < batches@[b2]@.len() && (
                #[trigger] batches@[b2]@[i]) == k;
            assert(bv[b2][i] == k);
        };
    }
    batches
}

} // verus!
