//! The graph model and the all-pairs shortest-path table.
//!
//! A `Graph` is a node count plus a list of edges given as two parallel
//! index arrays. The edge list is read as undirected: every edge joins its
//! two endpoints in both directions. Distances are hop counts over that
//! undirected adjacency, computed by one breadth-first search per source
//! node; entries for unreachable pairs hold `usize::MAX` as a sentinel.

use std::collections::VecDeque;
use vstd::prelude::*;

verus! {

/// A graph as a node count and an edge list, 0-based, with no self-loops.
pub struct Graph {
    pub node_size: usize,
    pub edge_size: usize,
    pub edge_src: Vec<usize>,
    pub edge_dst: Vec<usize>,
}

impl Graph {
    /// The edge arrays have length `edge_size`, endpoints are in range and
    /// no edge is a self-loop.
    pub open spec fn well_formed(&self) -> bool {
        &&& self.edge_src@.len() == self.edge_size
        &&& self.edge_dst@.len() == self.edge_size
        &&& forall|k: int|
            0 <= k < self.edge_size ==> (#[trigger] self.edge_src@[k]) < self.node_size
        &&& forall|k: int|
            0 <= k < self.edge_size ==> (#[trigger] self.edge_dst@[k]) < self.node_size
        &&& forall|k: int|
            0 <= k < self.edge_size ==> (#[trigger] self.edge_src@[k]) != self.edge_dst@[k]
    }

    /// Some edge joins `a` and `b`, in either direction.
    pub open spec fn adjacent(&self, a: int, b: int) -> bool {
        exists|k: int|
            #![trigger self.edge_src@[k], self.edge_dst@[k]]
            0 <= k < self.edge_size
                && ((self.edge_src@[k] == a && self.edge_dst@[k] == b)
                    || (self.edge_src@[k] == b && self.edge_dst@[k] == a))
    }

    /// There is a walk from `i` to `j` over at most `k` edges.
    pub open spec fn reach_within(&self, i: int, j: int, k: nat) -> bool
        decreases k,
    {
        if i == j {
            true
        } else if k == 0 {
            false
        } else {
            exists|m: int| #[trigger]
                self.adjacent(m, j) && self.reach_within(i, m, (k - 1) as nat)
        }
    }

    /// Some walk joins `i` to `j`.
    pub open spec fn reachable(&self, i: int, j: int) -> bool {
        exists|k: nat| self.reach_within(i, j, k)
    }

    /// `d` is the exact hop-count distance from `i` to `j`.
    pub open spec fn dist_is(&self, i: int, j: int, d: nat) -> bool {
        &&& self.reach_within(i, j, d)
        &&& forall|k: nat| k < d ==> !self.reach_within(i, j, k)
    }

    /// Every ordered node pair is joined by some walk.
    pub open spec fn connected(&self) -> bool {
        forall|i: int, j: int|
            0 <= i < self.node_size && 0 <= j < self.node_size ==> self.reachable(i, j)
    }
}

/// The edges of `src`/`dst` up to index `k` that are not self-loops, in
/// input order. This is what the constructor keeps.
pub open spec fn kept_edges(src: Seq<usize>, dst: Seq<usize>, k: int) -> Seq<(usize, usize)>
    decreases k,
{
    if k <= 0 {
        Seq::empty()
    } else {
        let rest = kept_edges(src, dst, k - 1);
        if src[k - 1] != dst[k - 1] {
            rest.push((src[k - 1], dst[k - 1]))
        } else {
            rest
        }
    }
}

/// The number of `true` entries of a boolean sequence.
pub open spec fn count_true(s: Seq<bool>) -> nat
    decreases s.len(),
{
    if s.len() == 0 {
        0
    } else {
        count_true(s.drop_last()) + if s.last() {
            1nat
        } else {
            0nat
        }
    }
}

pub proof fn lemma_count_true_le_len(s: Seq<bool>)
    ensures
        count_true(s) <= s.len(),
    decreases s.len(),
{
    if s.len() > 0 {
        lemma_count_true_le_len(s.drop_last());
    }
}

/// Turning one `false` entry `true` raises the count by one.
pub proof fn lemma_count_true_update(s: Seq<bool>, i: int)
    requires
        0 <= i < s.len(),
        !s[i],
    ensures
        count_true(s.update(i, true)) == count_true(s) + 1,
    decreases s.len(),
{
    let t = s.update(i, true);
    if i == s.len() - 1 {
        assert(t.drop_last() =~= s.drop_last());
    } else {
        assert(t.drop_last() =~= s.drop_last().update(i, true));
        lemma_count_true_update(s.drop_last(), i);
    }
}

impl Graph {
    /// The input edges as a sequence of pairs.
    pub open spec fn edge_pairs(&self) -> Seq<(usize, usize)> {
        Seq::new(self.edge_size as nat, |p: int| (self.edge_src@[p], self.edge_dst@[p]))
    }

    /// The undirected adjacency row of node `a` built from the first `k`
    /// edges: edge `e` contributes `edge_dst[e]` to the row of `edge_src[e]`
    /// and `edge_src[e]` to the row of `edge_dst[e]`.
    pub open spec fn neighbors_upto(&self, a: int, k: int) -> Seq<usize>
        decreases k,
    {
        if k <= 0 {
            Seq::empty()
        } else {
            let rest = self.neighbors_upto(a, k - 1);
            if self.edge_src@[k - 1] == a {
                rest.push(self.edge_dst@[k - 1])
            } else if self.edge_dst@[k - 1] == a {
                rest.push(self.edge_src@[k - 1])
            } else {
                rest
            }
        }
    }

    /// The full adjacency row of node `a`.
    pub open spec fn neighbors(&self, a: int) -> Seq<usize> {
        self.neighbors_upto(a, self.edge_size as int)
    }
}

/// Membership in an adjacency row prefix matches the edges scanned so far.
proof fn lemma_neighbors_upto_membership(g: &Graph, a: int, b: usize, k: int)
    requires
        g.edge_src@.len() == g.edge_size,
        g.edge_dst@.len() == g.edge_size,
        0 <= k <= g.edge_size,
    ensures
        g.neighbors_upto(a, k).contains(b) <==> exists|e: int|
            #![trigger g.edge_src@[e], g.edge_dst@[e]]
            0 <= e < k && ((g.edge_src@[e] == a && g.edge_dst@[e] == b) || (g.edge_dst@[e] == a
                && g.edge_src@[e] == b)),
    decreases k,
{
    if k > 0 {
        lemma_neighbors_upto_membership(g, a, b, k - 1);
        let rest = g.neighbors_upto(a, k - 1);
        let row = g.neighbors_upto(a, k);
        if g.edge_src@[k - 1] == a || g.edge_dst@[k - 1] == a {
            let x = if g.edge_src@[k - 1] == a {
                g.edge_dst@[k - 1]
            } else {
                g.edge_src@[k - 1]
            };
            assert(row == rest.push(x));
            assert(row[rest.len() as int] == x);
            if row.contains(b) {
                let p = choose|p: int| 0 <= p < row.len() && row[p] == b;
                if p < rest.len() {
                    assert(rest[p] == b);
                }
            }
            if rest.contains(b) {
                let p = choose|p: int| 0 <= p < rest.len() && rest[p] == b;
                assert(row[p] == b);
            }
        }
    }
}

/// A node stands in the full adjacency row of `a` exactly when it is
/// adjacent to `a`; all row entries are in range.
pub proof fn lemma_neighbors_adjacent(g: &Graph, a: int, b: usize)
    requires
        g.well_formed(),
    ensures
        g.neighbors(a).contains(b) <==> g.adjacent(a, b as int),
        g.neighbors(a).contains(b) ==> b < g.node_size,
{
    lemma_neighbors_upto_membership(g, a, b, g.edge_size as int);
}

impl Graph {
    /// `row` is a correct distance row for source `i`: exact hop counts for
    /// reachable nodes, the sentinel for unreachable ones.
    pub open spec fn dist_row_correct(&self, i: int, row: Seq<usize>) -> bool {
        &&& row.len() == self.node_size
        &&& forall|j: int|
            0 <= j < self.node_size ==> if self.reachable(i, j) {
                (#[trigger] row[j]) < self.node_size && self.dist_is(i, j, row[j] as nat)
            } else {
                row[j] == usize::MAX
            }
    }

    /// `m` is a correct all-pairs distance table.
    pub open spec fn dist_matrix_correct(&self, m: Seq<Seq<usize>>) -> bool {
        &&& m.len() == self.node_size
        &&& forall|i: int| 0 <= i < self.node_size ==> self.dist_row_correct(i, #[trigger] m[i])
    }
}

/// Both endpoints of an adjacency are node indices.
pub proof fn lemma_adjacent_in_range(g: &Graph, a: int, b: int)
    requires
        g.well_formed(),
        g.adjacent(a, b),
    ensures
        0 <= a < g.node_size,
        0 <= b < g.node_size,
{
    let k = choose|k: int|
        #![trigger g.edge_src@[k], g.edge_dst@[k]]
        0 <= k < g.edge_size
            && ((g.edge_src@[k] == a && g.edge_dst@[k] == b)
                || (g.edge_src@[k] == b && g.edge_dst@[k] == a));
    assert(g.edge_src@[k] < g.node_size && g.edge_dst@[k] < g.node_size);
}

/// A set of nodes that holds the source and is closed under adjacency holds
/// every node any walk can reach from the source.
proof fn lemma_closed_reach(g: &Graph, i: int, seen: Seq<bool>, j: int, k: nat)
    requires
        g.well_formed(),
        seen.len() == g.node_size,
        0 <= i < g.node_size,
        seen[i],
        forall|a: int, b: int|
            0 <= a < g.node_size && seen[a] && #[trigger] g.adjacent(a, b) ==> (0 <= b
                < g.node_size && seen[b]),
        0 <= j < g.node_size,
        g.reach_within(i, j, k),
    ensures
        seen[j],
    decreases k,
{
    if j != i {
        let m = choose|m: int| #[trigger]
            g.adjacent(m, j) && g.reach_within(i, m, (k - 1) as nat);
        lemma_adjacent_in_range(g, m, j);
        lemma_closed_reach(g, i, seen, m, (k - 1) as nat);
    }
}

/// During the search from `i`, once every node within `dv - 1` hops is seen
/// and every seen node closer than `dv` has had its whole adjacency row
/// relaxed, every node within `dv` hops is seen as well.
proof fn lemma_seen_covers_reach(g: &Graph, i: int, dv: nat, seen: Seq<bool>, row: Seq<usize>, j: int)
    requires
        g.well_formed(),
        seen.len() == g.node_size,
        row.len() == g.node_size,
        0 <= i < g.node_size,
        seen[i],
        0 <= j < g.node_size,
        g.reach_within(i, j, dv),
        dv >= 1 ==> forall|j2: int|
            0 <= j2 < g.node_size && g.reach_within(i, j2, (dv - 1) as nat) ==> seen[j2],
        forall|j2: int|
            0 <= j2 < g.node_size && seen[j2] ==> g.dist_is(i, j2, (#[trigger] row[j2]) as nat),
        forall|a: int, p: int|
            0 <= a < g.node_size && seen[a] && row[a] < dv && 0 <= p < g.neighbors(a).len()
                ==> seen[#[trigger] g.neighbors(a)[p] as int],
    ensures
        seen[j],
{
    if j != i && dv >= 1 {
        let m = choose|m: int| #[trigger]
            g.adjacent(m, j) && g.reach_within(i, m, (dv - 1) as nat);
        lemma_adjacent_in_range(g, m, j);
        assert(seen[m]);
        assert(row[m] < dv) by {
            if row[m] >= dv {
                assert(g.dist_is(i, m, row[m] as nat));
                assert(!g.reach_within(i, m, (dv - 1) as nat));
            }
        };
        lemma_neighbors_adjacent(g, m, j as usize);
        let p = choose|p: int| 0 <= p < g.neighbors(m).len() && g.neighbors(m)[p] == j as usize;
        assert(seen[g.neighbors(m)[p] as int]);
    }
}

/// Adjacency is symmetric in its two arguments.
pub proof fn lemma_adjacent_sym(g: &Graph, a: int, b: int)
    requires
        g.adjacent(a, b),
    ensures
        g.adjacent(b, a),
{
    let k = choose|k: int|
        #![trigger g.edge_src@[k], g.edge_dst@[k]]
        0 <= k < g.edge_size
            && ((g.edge_src@[k] == a && g.edge_dst@[k] == b)
                || (g.edge_src@[k] == b && g.edge_dst@[k] == a));
    assert(0 <= k < g.edge_size
        && ((g.edge_src@[k] == b && g.edge_dst@[k] == a)
            || (g.edge_src@[k] == a && g.edge_dst@[k] == b)));
}

/// A walk within `k1` edges is a walk within any larger bound.
pub proof fn lemma_reach_mono(g: &Graph, i: int, j: int, k1: nat, k2: nat)
    requires
        g.reach_within(i, j, k1),
        k1 <= k2,
    ensures
        g.reach_within(i, j, k2),
    decreases k1,
{
    if i != j {
        let m = choose|m: int| #[trigger]
            g.adjacent(m, j) && g.reach_within(i, m, (k1 - 1) as nat);
        lemma_reach_mono(g, i, m, (k1 - 1) as nat, (k2 - 1) as nat);
    }
}

/// A walk may be extended by one edge at its source end.
pub proof fn lemma_reach_step_front(g: &Graph, a: int, b: int, c: int, k: nat)
    requires
        g.adjacent(a, b),
        g.reach_within(b, c, k),
    ensures
        g.reach_within(a, c, (k + 1) as nat),
    decreases k,
{
    if b == c {
        assert(g.adjacent(a, c) && g.reach_within(a, a, k));
    } else {
        let m = choose|m: int| #[trigger]
            g.adjacent(m, c) && g.reach_within(b, m, (k - 1) as nat);
        lemma_reach_step_front(g, a, b, m, (k - 1) as nat);
        assert(g.adjacent(m, c) && g.reach_within(a, m, k));
    }
}

/// Walks reverse: a walk from `i` to `j` yields one from `j` to `i` of the
/// same length bound.
pub proof fn lemma_reach_sym(g: &Graph, i: int, j: int, k: nat)
    requires
        g.reach_within(i, j, k),
    ensures
        g.reach_within(j, i, k),
    decreases k,
{
    if i != j {
        let m = choose|m: int| #[trigger]
            g.adjacent(m, j) && g.reach_within(i, m, (k - 1) as nat);
        lemma_reach_sym(g, i, m, (k - 1) as nat);
        lemma_adjacent_sym(g, m, j);
        lemma_reach_step_front(g, j, m, i, (k - 1) as nat);
    }
}

impl Graph {
    /// Build a graph from a node count and two parallel endpoint arrays.
    /// Self-loops are dropped; an out-of-range endpoint on a kept edge
    /// rejects the whole input.
    pub fn from_edges(node_size: usize, edge_src: &Vec<usize>, edge_dst: &Vec<usize>) -> (r:
        Option<Graph>)
        requires
            edge_src@.len() == edge_dst@.len(),
        ensures
            r is None <==> exists|k: int|
                #![trigger edge_src@[k], edge_dst@[k]]
                0 <= k < edge_src@.len() && edge_src@[k] != edge_dst@[k] && (edge_src@[k]
                    >= node_size || edge_dst@[k] >= node_size),
            r matches Some(g) ==> {
                &&& g.well_formed()
                &&& g.node_size == node_size
                &&& g.edge_pairs() == kept_edges(edge_src@, edge_dst@, edge_src@.len() as int)
            },
    {
        let mut src: Vec<usize> = Vec::new();
        let mut dst: Vec<usize> = Vec::new();
        let len: usize = edge_src.len();
        for k in 0..len
            invariant
                len == edge_src@.len() == edge_dst@.len(),
                src@.len() == dst@.len(),
                Seq::new(src@.len(), |p: int| (src@[p], dst@[p])) == kept_edges(
                    edge_src@,
                    edge_dst@,
                    k as int,
                ),
                forall|p: int| 0 <= p < src@.len() ==> (#[trigger] src@[p]) < node_size,
                forall|p: int| 0 <= p < dst@.len() ==> (#[trigger] dst@[p]) < node_size,
                forall|p: int| 0 <= p < src@.len() ==> (#[trigger] src@[p]) != dst@[p],
                forall|e: int|
                    #![trigger edge_src@[e], edge_dst@[e]]
                    0 <= e < k ==> !(edge_src@[e] != edge_dst@[e] && (edge_src@[e] >= node_size
                        || edge_dst@[e] >= node_size)),
        {
            let s: usize = edge_src[k];
            let d: usize = edge_dst[k];
            if s != d {
                if s >= node_size || d >= node_size {
                    return None;
                }
                src.push(s);
                dst.push(d);
                assert(Seq::new(src@.len(), |p: int| (src@[p], dst@[p])) =~= kept_edges(
                    edge_src@,
                    edge_dst@,
                    k + 1,
                ));
            } else {
                assert(Seq::new(src@.len(), |p: int| (src@[p], dst@[p])) =~= kept_edges(
                    edge_src@,
                    edge_dst@,
                    k + 1,
                ));
            }
        }
        let edge_size: usize = src.len();
        let g = Graph { node_size, edge_size, edge_src: src, edge_dst: dst };
        assert(g.edge_pairs() =~= kept_edges(edge_src@, edge_dst@, edge_src@.len() as int));
        Some(g)
    }

    /// Build the undirected adjacency list: every edge inserts both
    /// directions.
    pub fn calc_adj_matrix(&self) -> (adj: Vec<Vec<usize>>)
        requires
            self.well_formed(),
        ensures
            adj@.len() == self.node_size,
            forall|a: int| 0 <= a < self.node_size ==> (#[trigger] adj@[a])@ == self.neighbors(a),
    {
        let mut adj: Vec<Vec<usize>> = Vec::new();
        let n: usize = self.node_size;
        while adj.len() < n
            invariant
                adj@.len() <= n,
                forall|a: int| 0 <= a < adj@.len() ==> (#[trigger] adj@[a])@ == Seq::<
                    usize,
                >::empty(),
            decreases n - adj@.len(),
        {
            adj.push(Vec::new());
        }
        for i in 0..self.edge_size
            invariant
                self.well_formed(),
                adj@.len() == n,
                n == self.node_size,
                forall|a: int|
                    0 <= a < n ==> (#[trigger] adj@[a])@ == self.neighbors_upto(a, i as int),
        {
            let s: usize = self.edge_src[i];
            let d: usize = self.edge_dst[i];
            adj[s].push(d);
            adj[d].push(s);
        }
        adj
    }
}

impl Graph {
    /// One breadth-first search from source `i` over the adjacency list,
    /// producing the distance row of `i`.
    #[verifier::loop_isolation(false)]
    fn bfs_row(&self, adj: &Vec<Vec<usize>>, i: usize) -> (row: Vec<usize>)
        requires
            self.well_formed(),
            self.node_size < usize::MAX,
            adj@.len() == self.node_size,
            forall|a: int| 0 <= a < self.node_size ==> (#[trigger] adj@[a])@ == self.neighbors(a),
            i < self.node_size,
        ensures
            self.dist_row_correct(i as int, row@),
    {
        let n: usize = self.node_size;
        let mut row: Vec<usize> = Vec::new();
        while row.len() < n
            invariant
                row@.len() <= n,
                forall|j: int| 0 <= j < row@.len() ==> (#[trigger] row@[j]) == usize::MAX,
            decreases n - row@.len(),
        {
            row.push(usize::MAX);
        }
        let mut seen: Vec<bool> = Vec::new();
        while seen.len() < n
            invariant
                seen@.len() <= n,
                forall|j: int| 0 <= j < seen@.len() ==> !(#[trigger] seen@[j]),
                count_true(seen@) == 0,
            decreases n - seen@.len(),
        {
            proof {
                assert(seen@.push(false).drop_last() =~= seen@);
            }
            seen.push(false);
        }
        let mut deq: VecDeque<usize> = VecDeque::new();
        deq.push_back(i);
        proof {
            lemma_count_true_update(seen@, i as int);
        }
        seen[i] = true;
        row[i] = 0;
        proof {
            assert(deq@[0] == i);
            assert(deq@.contains(i));
        }
        while deq.len() != 0
            invariant
                row@.len() == n,
                seen@.len() == n,
                count_true(seen@) <= n,
                seen@[i as int],
                forall|p: int| 0 <= p < deq@.len() ==> (#[trigger] deq@[p]) < n,
                forall|p: int| 0 <= p < deq@.len() ==> seen@[(#[trigger] deq@[p]) as int],
                forall|p1: int, p2: int|
                    #![trigger deq@[p1], deq@[p2]]
                    0 <= p1 < p2 < deq@.len() ==> deq@[p1] != deq@[p2],
                forall|j: int| 0 <= j < n ==> ((#[trigger] seen@[j]) <==> row@[j] != usize::MAX),
                forall|j: int|
                    0 <= j < n && seen@[j] ==> (#[trigger] row@[j]) < count_true(seen@),
                forall|j: int|
                    0 <= j < n && seen@[j] ==> self.dist_is(
                        i as int,
                        j,
                        (#[trigger] row@[j]) as nat,
                    ),
                forall|p1: int, p2: int|
                    #![trigger deq@[p1], deq@[p2]]
                    0 <= p1 <= p2 < deq@.len() ==> row@[deq@[p1] as int] <= row@[deq@[p2] as int],
                deq@.len() > 0 ==> row@[deq@.last() as int] <= row@[deq@[0] as int] + 1,
                forall|a: int, p: int|
                    0 <= a < n && seen@[a] && !deq@.contains(a as usize) && 0 <= p
                        < self.neighbors(a).len() ==> ((#[trigger] self.neighbors(a)[p]) < n
                        && seen@[self.neighbors(a)[p] as int]
                        && row@[self.neighbors(a)[p] as int] <= row@[a] + 1),
                deq@.len() == 0 ==> forall|j: int, k: nat|
                    0 <= j < n && #[trigger] self.reach_within(i as int, j, k) ==> seen@[j],
                deq@.len() > 0 && row@[deq@[0] as int] >= 1 ==> forall|j: int|
                    0 <= j < n && #[trigger] self.reach_within(
                        i as int,
                        j,
                        (row@[deq@[0] as int] - 1) as nat,
                    ) ==> seen@[j],
            decreases 2 * (n - count_true(seen@)) + deq@.len(),
        {
            let ghost c0 = count_true(seen@);
            let ghost m0 = 2 * (n - c0) + deq@.len() - 1;
            let ghost q_before = deq@;
            let v: usize = deq.pop_front().unwrap();
            let dv: usize = row[v];
            proof {
                lemma_count_true_le_len(seen@);
                assert forall|x: usize| q_before.contains(x) && x != v implies deq@.contains(
                    x,
                ) by {
                    let pp = choose|pp: int| 0 <= pp < q_before.len() && q_before[pp] == x;
                    assert(deq@[pp - 1] == x);
                };
            }
            let neighbors: &Vec<usize> = &adj[v];
            assert(neighbors@ == self.neighbors(v as int));
            for p in 0..neighbors.len()
                invariant
                    row@.len() == n,
                    seen@.len() == n,
                    count_true(seen@) <= n,
                    seen@[i as int],
                    seen@[v as int],
                    row@[v as int] == dv,
                    forall|p2: int| 0 <= p2 < deq@.len() ==> (#[trigger] deq@[p2]) < n,
                    forall|p2: int| 0 <= p2 < deq@.len() ==> seen@[(#[trigger] deq@[p2]) as int],
                    forall|p1: int, p2: int|
                        #![trigger deq@[p1], deq@[p2]]
                        0 <= p1 < p2 < deq@.len() ==> deq@[p1] != deq@[p2],
                    !deq@.contains(v),
                    forall|j: int| 0 <= j < n ==> ((#[trigger] seen@[j]) <==> row@[j] != usize::MAX),
                    forall|j: int|
                        0 <= j < n && seen@[j] ==> (#[trigger] row@[j]) < count_true(seen@),
                    forall|j: int|
                        0 <= j < n && seen@[j] ==> self.dist_is(
                            i as int,
                            j,
                            (#[trigger] row@[j]) as nat,
                        ),
                    forall|p2: int|
                        0 <= p2 < deq@.len() ==> dv <= row@[(#[trigger] deq@[p2]) as int] <= dv
                            + 1,
                    forall|p1: int, p2: int|
                        #![trigger deq@[p1], deq@[p2]]
                        0 <= p1 <= p2 < deq@.len() ==> row@[deq@[p1] as int] <= row@[deq@[p2] as int],
                    dv >= 1 ==> forall|j: int|
                        0 <= j < n && #[trigger] self.reach_within(
                            i as int,
                            j,
                            (dv - 1) as nat,
                        ) ==> seen@[j],
                    forall|a: int, p2: int|
                        0 <= a < n && seen@[a] && a != v as int && !deq@.contains(a as usize) && 0
                            <= p2 < self.neighbors(a).len() ==> ((
                        #[trigger] self.neighbors(a)[p2]) < n
                            && seen@[self.neighbors(a)[p2] as int]
                            && row@[self.neighbors(a)[p2] as int] <= row@[a] + 1),
                    forall|p2: int|
                        0 <= p2 < p ==> ((#[trigger] neighbors@[p2]) < n
                            && seen@[neighbors@[p2] as int]
                            && row@[neighbors@[p2] as int] <= dv + 1),
                    2 * (n - count_true(seen@)) + deq@.len() <= m0,
            {
                let u: usize = neighbors[p];
                proof {
                    lemma_neighbors_adjacent(self, v as int, u);
                    assert(self.neighbors(v as int).contains(u));
                }
                if !seen[u] {
                    proof {
                        assert(!self.reach_within(i as int, u as int, dv as nat)) by {
                            if self.reach_within(i as int, u as int, dv as nat) {
                                assert forall|a: int, p2: int|
                                    0 <= a < n && seen@[a] && row@[a] < dv && 0 <= p2
                                        < self.neighbors(a).len() implies seen@[(
                                #[trigger] self.neighbors(a)[p2]) as int] by {
                                    if deq@.contains(a as usize) {
                                        let pp = choose|pp: int|
                                            0 <= pp < deq@.len() && deq@[pp] == a as usize;
                                        assert(dv <= row@[deq@[pp] as int]);
                                    }
                                    assert(a != v as int);
                                };
                                lemma_seen_covers_reach(
                                    self,
                                    i as int,
                                    dv as nat,
                                    seen@,
                                    row@,
                                    u as int,
                                );
                            }
                        };
                        assert(self.reach_within(i as int, u as int, (dv + 1) as nat)) by {
                            assert(self.adjacent(v as int, u as int) && self.reach_within(
                                i as int,
                                v as int,
                                dv as nat,
                            ));
                        };
                        assert forall|k: nat| k < dv + 1 implies !self.reach_within(
                            i as int,
                            u as int,
                            k,
                        ) by {
                            if self.reach_within(i as int, u as int, k) {
                                lemma_reach_mono(self, i as int, u as int, k, dv as nat);
                            }
                        };
                        lemma_count_true_update(seen@, u as int);
                    }
                    let newd: usize = dv + 1;
                    let ghost seen_pre = seen@;
                    let ghost q_pre = deq@;
                    seen[u] = true;
                    row[u] = newd;
                    deq.push_back(u);
                    proof {
                        lemma_count_true_le_len(seen@);
                        assert(self.dist_is(i as int, u as int, newd as nat));
                        assert(deq@.last() == u);
                        assert(deq@.contains(u));
                        assert forall|a: int, p2: int|
                            0 <= a < n && seen@[a] && a != v as int && !deq@.contains(a as usize)
                                && 0 <= p2 < self.neighbors(a).len() implies ((
                        #[trigger] self.neighbors(a)[p2]) < n
                            && seen@[self.neighbors(a)[p2] as int]
                            && row@[self.neighbors(a)[p2] as int] <= row@[a] + 1) by {
                            assert(a != u as int);
                            if q_pre.contains(a as usize) {
                                let pp = choose|pp: int|
                                    0 <= pp < q_pre.len() && q_pre[pp] == a as usize;
                                assert(deq@[pp] == a as usize);
                                assert(false);
                            }
                            assert(seen_pre[a]);
                            assert(self.neighbors(a)[p2] < n);
                            assert(seen_pre[self.neighbors(a)[p2] as int]);
                            assert(self.neighbors(a)[p2] != u);
                        };
                    }
                } else {
                    proof {
                        assert(row@[u as int] <= dv + 1) by {
                            assert(self.adjacent(v as int, u as int) && self.reach_within(
                                i as int,
                                v as int,
                                dv as nat,
                            ));
                            assert(self.reach_within(i as int, u as int, (dv + 1) as nat));
                            if row@[u as int] > dv + 1 {
                                assert(self.dist_is(i as int, u as int, row@[u as int] as nat));
                                assert(!self.reach_within(i as int, u as int, (dv + 1) as nat));
                            }
                        };
                    }
                }
            }
            proof {
                assert forall|a: int, p2: int|
                    0 <= a < n && seen@[a] && !deq@.contains(a as usize) && 0 <= p2
                        < self.neighbors(a).len() implies ((
                #[trigger] self.neighbors(a)[p2]) < n
                    && seen@[self.neighbors(a)[p2] as int]
                    && row@[self.neighbors(a)[p2] as int] <= row@[a] + 1) by {
                    if a == v as int {
                        assert(neighbors@[p2] < n && seen@[neighbors@[p2] as int]
                            && row@[neighbors@[p2] as int] <= dv + 1);
                    }
                };
                if deq@.len() == 0 {
                    assert forall|a: int, b: int|
                        0 <= a < n && seen@[a] && #[trigger] self.adjacent(a, b) implies (0 <= b
                        < n && seen@[b]) by {
                        lemma_adjacent_in_range(self, a, b);
                        lemma_neighbors_adjacent(self, a, b as usize);
                        let p2 = choose|p2: int|
                            0 <= p2 < self.neighbors(a).len() && self.neighbors(a)[p2]
                                == b as usize;
                        assert(seen@[(self.neighbors(a)[p2]) as int]);
                    };
                    assert forall|j: int, k: nat|
                        0 <= j < n && #[trigger] self.reach_within(i as int, j, k) implies seen@[j] by {
                        lemma_closed_reach(self, i as int, seen@, j, k);
                    };
                } else {
                    let h = row@[deq@[0] as int];
                    assert(dv <= h <= dv + 1);
                    if h == dv + 1 {
                        assert forall|j: int|
                            0 <= j < n && #[trigger] self.reach_within(
                                i as int,
                                j,
                                dv as nat,
                            ) implies seen@[j] by {
                            assert forall|a: int, p2: int|
                                0 <= a < n && seen@[a] && row@[a] < dv && 0 <= p2
                                    < self.neighbors(a).len() implies seen@[(
                            #[trigger] self.neighbors(a)[p2]) as int] by {
                                if deq@.contains(a as usize) {
                                    let pp = choose|pp: int|
                                        0 <= pp < deq@.len() && deq@[pp] == a as usize;
                                    assert(dv <= row@[deq@[pp] as int]);
                                }
                                assert(a != v as int);
                            };
                            lemma_seen_covers_reach(self, i as int, dv as nat, seen@, row@, j);
                        };
                    }
                }
            }
        }
        proof {
            lemma_count_true_le_len(seen@);
            assert forall|j: int| 0 <= j < n implies (if self.reachable(i as int, j) {
                row@[j] < n && self.dist_is(i as int, j, row@[j] as nat)
            } else {
                row@[j] == usize::MAX
            }) by {
                if self.reachable(i as int, j) {
                    let k = choose|k: nat| self.reach_within(i as int, j, k);
                    assert(seen@[j]);
                } else {
                    if seen@[j] {
                        assert(self.reach_within(i as int, j, row@[j] as nat));
                    }
                }
            };
        }
        row
    }

    /// The all-pairs shortest-path table: one breadth-first search per
    /// source node. Unreachable pairs hold `usize::MAX`.
    pub fn calc_dist_matrix(&self) -> (dist_matrix: Vec<Vec<usize>>)
        requires
            self.well_formed(),
            self.node_size < usize::MAX,
        ensures
            self.dist_matrix_correct(dist_matrix@.map_values(|r: Vec<usize>| r@)),
    {
        let adj: Vec<Vec<usize>> = self.calc_adj_matrix();
        let n: usize = self.node_size;
        let mut dist_matrix: Vec<Vec<usize>> = Vec::new();
        for i in 0..n
            invariant
                self.well_formed(),
                self.node_size < usize::MAX,
                n == self.node_size,
                adj@.len() == self.node_size,
                forall|a: int| 0 <= a < self.node_size ==> (#[trigger] adj@[a])@ == self.neighbors(
                    a,
                ),
                dist_matrix@.len() == i,
                forall|i2: int|
                    0 <= i2 < i ==> self.dist_row_correct(i2, (#[trigger] dist_matrix@[i2])@),
        {
            let row: Vec<usize> = self.bfs_row(&adj, i);
            dist_matrix.push(row);
        }
        dist_matrix
    }
}

/// An exact distance is unique: two exact hop counts for the same pair are
/// equal.
pub proof fn lemma_dist_is_unique(g: &Graph, i: int, j: int, d1: nat, d2: nat)
    requires
        g.dist_is(i, j, d1),
        g.dist_is(i, j, d2),
    ensures
        d1 == d2,
{
    if d1 < d2 {
        assert(!g.reach_within(i, j, d1));
    }
    if d2 < d1 {
        assert(!g.reach_within(i, j, d2));
    }
}

/// The distance table is symmetric and its diagonal is zero: the adjacency
/// is undirected, so every walk reverses, and the empty walk joins each
/// node to itself.
pub proof fn lemma_dist_matrix_symmetric(g: &Graph, m: Seq<Seq<usize>>)
    requires
        g.well_formed(),
        g.dist_matrix_correct(m),
    ensures
        forall|i: int, j: int|
            0 <= i < g.node_size && 0 <= j < g.node_size ==> m[i][j] == (#[trigger] m[j][i]),
        forall|i: int| 0 <= i < g.node_size ==> (#[trigger] m[i][i]) == 0,
{
    let n = g.node_size as int;
    assert forall|i: int| 0 <= i < n implies (#[trigger] m[i][i]) == 0 by {
        assert(g.reach_within(i, i, 0));
        assert(g.reachable(i, i));
        assert(g.dist_is(i, i, m[i][i] as nat));
        if m[i][i] != 0 {
            assert(!g.reach_within(i, i, 0));
        }
    };
    assert forall|i: int, j: int| 0 <= i < n && 0 <= j < n implies m[i][j] == (
    #[trigger] m[j][i]) by {
        if g.reachable(i, j) {
            let k = choose|k: nat| g.reach_within(i, j, k);
            lemma_reach_sym(g, i, j, k);
            assert(g.reachable(j, i));
            let d1 = m[i][j] as nat;
            let d2 = m[j][i] as nat;
            assert(g.dist_is(i, j, d1) && g.dist_is(j, i, d2));
            lemma_reach_sym(g, i, j, d1);
            lemma_reach_sym(g, j, i, d2);
            assert(g.dist_is(j, i, d1)) by {
                assert forall|k2: nat| k2 < d1 implies !g.reach_within(j, i, k2) by {
                    if g.reach_within(j, i, k2) {
                        lemma_reach_sym(g, j, i, k2);
                    }
                };
            };
            lemma_dist_is_unique(g, j, i, d1, d2);
        } else {
            assert(!g.reachable(j, i)) by {
                if g.reachable(j, i) {
                    let k = choose|k: nat| g.reach_within(j, i, k);
                    lemma_reach_sym(g, j, i, k);
                    assert(g.reachable(i, j));
                }
            };
        }
    };
}

/// On a connected graph every off-diagonal entry of the distance table is
/// finite, at least one, and below the node count.
pub proof fn lemma_connected_dist_finite(g: &Graph, m: Seq<Seq<usize>>)
    requires
        g.well_formed(),
        g.dist_matrix_correct(m),
        g.connected(),
    ensures
        forall|i: int, j: int|
            0 <= i < g.node_size && 0 <= j < g.node_size && i != j ==> 1 <= (#[trigger] m[i][j])
                < g.node_size,
{
    let n = g.node_size as int;
    assert forall|i: int, j: int| 0 <= i < n && 0 <= j < n && i != j implies 1 <= (
    #[trigger] m[i][j]) < g.node_size by {
        assert(g.reachable(i, j));
        assert(g.dist_is(i, j, m[i][j] as nat));
        if m[i][j] == 0 {
            assert(g.reach_within(i, j, 0));
        }
    };
}

} // verus!
