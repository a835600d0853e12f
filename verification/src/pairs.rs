//! Pair extraction from the distance table.
//!
//! The relaxation engine works on unordered node pairs `u < v` that lie at
//! a finite, positive graph distance. This module extracts those pairs from
//! a distance table, together with the least and greatest pair distance,
//! from which the caller derives the weight extremes (`w = 1 / d^2`, so the
//! greatest distance yields the least weight and vice versa).

use vstd::prelude::*;

use crate::graph::Graph;

verus! {

/// One retained node pair `u < v` with its graph distance `dij`.
#[derive(Clone, Copy, Debug, PartialEq, Eq, Structural)]
pub struct EdgeInfo {
    pub u: usize,
    pub v: usize,
    pub dij: usize,
}

/// The least and greatest distance over all retained pairs.
#[derive(Clone, Copy, Debug, PartialEq, Eq, Structural)]
pub struct DistExtremes {
    pub dmin: usize,
    pub dmax: usize,
}

impl Graph {
    /// Collect every unordered pair `u < v` whose table entry is finite and
    /// positive, in ascending `(u, v)` order, with the distance extremes
    /// over those pairs. A table with no such pair yields `None` for the
    /// extremes: the degenerate case the caller must reject before it
    /// derives weights.
    #[verifier::rlimit(60)]
    pub fn calc_edge_info(&self, dist: &Vec<Vec<usize>>) -> (r: (Vec<EdgeInfo>, Option<
        DistExtremes,
    >))
        requires
            forall|i: int| 0 <= i < dist@.len() ==> (#[trigger] dist@[i])@.len() == dist@.len(),
        ensures
            forall|p: int|
                0 <= p < r.0@.len() ==> {
                    let e = #[trigger] r.0@[p];
                    &&& e.u < e.v < dist@.len()
                    &&& dist@[e.u as int]@[e.v as int] == e.dij
                    &&& 1 <= e.dij < usize::MAX
                },
            forall|u: int, v: int|
                #![trigger dist@[u]@[v]]
                0 <= u < v < dist@.len() && dist@[u]@[v] != usize::MAX && dist@[u]@[v] >= 1
                    ==> r.0@.contains(
                    (EdgeInfo { u: u as usize, v: v as usize, dij: dist@[u]@[v] }),
                ),
            forall|p1: int, p2: int|
                #![trigger r.0@[p1], r.0@[p2]]
                0 <= p1 < p2 < r.0@.len() ==> (r.0@[p1].u < r.0@[p2].u || (r.0@[p1].u == r.0@[p2].u
                    && r.0@[p1].v < r.0@[p2].v)),
            r.1 is Some <==> r.0@.len() > 0,
            r.1 matches Some(ex) ==> exists|p: int|
                0 <= p < r.0@.len() && (#[trigger] r.0@[p]).dij == ex.dmin,
            r.1 matches Some(ex) ==> exists|p: int|
                0 <= p < r.0@.len() && (#[trigger] r.0@[p]).dij == ex.dmax,
            r.1 matches Some(ex) ==> forall|p: int|
                0 <= p < r.0@.len() ==> ex.dmin <= (#[trigger] r.0@[p]).dij <= ex.dmax,
    {
        let mut pairs: Vec<EdgeInfo> = Vec::new();
        let mut extremes: Option<DistExtremes> = None;
        let len: usize = dist.len();
        for u in 0..len
            invariant
                len == dist@.len(),
                forall|i: int| 0 <= i < dist@.len() ==> (#[trigger] dist@[i])@.len() == dist@.len(),
                forall|p: int|
                    0 <= p < pairs@.len() ==> {
                        let e = #[trigger] pairs@[p];
                        &&& e.u < e.v < dist@.len()
                        &&& dist@[e.u as int]@[e.v as int] == e.dij
                        &&& 1 <= e.dij < usize::MAX
                    },
                forall|p: int| 0 <= p < pairs@.len() ==> (#[trigger] pairs@[p]).u < u,
                forall|u2: int, v2: int|
                    #![trigger dist@[u2]@[v2]]
                    0 <= u2 < v2 < dist@.len() && u2 < u && dist@[u2]@[v2] != usize::MAX
                        && dist@[u2]@[v2] >= 1 ==> pairs@.contains(
                        (EdgeInfo { u: u2 as usize, v: v2 as usize, dij: dist@[u2]@[v2] }),
                    ),
                forall|p1: int, p2: int|
                    #![trigger pairs@[p1], pairs@[p2]]
                    0 <= p1 < p2 < pairs@.len() ==> (pairs@[p1].u < pairs@[p2].u || (pairs@[p1].u
                        == pairs@[p2].u && pairs@[p1].v < pairs@[p2].v)),
                extremes is Some <==> pairs@.len() > 0,
                extremes matches Some(ex) ==> {
                    &&& exists|p: int|
                        0 <= p < pairs@.len() && (#[trigger] pairs@[p]).dij == ex.dmin
                    &&& exists|p: int|
                        0 <= p < pairs@.len() && (#[trigger] pairs@[p]).dij == ex.dmax
                    &&& forall|p: int|
                        0 <= p < pairs@.len() ==> ex.dmin <= (#[trigger] pairs@[p]).dij
                            <= ex.dmax
                },
        {
            let row_len: usize = dist[u].len();
            let mut v: usize = u + 1;
            while v < row_len
                invariant
                    u < len,
                    u + 1 <= v,
                    row_len == len == dist@.len(),
                    forall|i: int|
                        0 <= i < dist@.len() ==> (#[trigger] dist@[i])@.len() == dist@.len(),
                    forall|p: int|
                        0 <= p < pairs@.len() ==> {
                            let e = #[trigger] pairs@[p];
                            &&& e.u < e.v < dist@.len()
                            &&& dist@[e.u as int]@[e.v as int] == e.dij
                            &&& 1 <= e.dij < usize::MAX
                        },
                    forall|p: int|
                        0 <= p < pairs@.len() ==> ((#[trigger] pairs@[p]).u < u || (pairs@[p].u
                            == u && pairs@[p].v < v)),
                    forall|u2: int, v2: int|
                        #![trigger dist@[u2]@[v2]]
                        0 <= u2 < v2 < dist@.len() && (u2 < u || (u2 == u && v2 < v))
                            && dist@[u2]@[v2] != usize::MAX && dist@[u2]@[v2] >= 1
                            ==> pairs@.contains(
                            (EdgeInfo { u: u2 as usize, v: v2 as usize, dij: dist@[u2]@[v2] }),
                        ),
                    forall|p1: int, p2: int|
                        #![trigger pairs@[p1], pairs@[p2]]
                        0 <= p1 < p2 < pairs@.len() ==> (pairs@[p1].u < pairs@[p2].u || (
                        pairs@[p1].u == pairs@[p2].u && pairs@[p1].v < pairs@[p2].v)),
                    extremes is Some <==> pairs@.len() > 0,
                    extremes matches Some(ex) ==> {
                        &&& exists|p: int|
                            0 <= p < pairs@.len() && (#[trigger] pairs@[p]).dij == ex.dmin
                        &&& exists|p: int|
                            0 <= p < pairs@.len() && (#[trigger] pairs@[p]).dij == ex.dmax
                        &&& forall|p: int|
                            0 <= p < pairs@.len() ==> ex.dmin <= (#[trigger] pairs@[p]).dij
                                <= ex.dmax
                    },
                decreases row_len - v,
            {
                let d: usize = dist[u][v];
                if d != usize::MAX && d >= 1 {
                    let ghost pairs_pre = pairs@;
                    pairs.push(EdgeInfo { u, v, dij: d });
                    extremes = match extremes {
                        None => Some(DistExtremes { dmin: d, dmax: d }),
                        Some(ex) => Some(
                            DistExtremes {
                                dmin: if d < ex.dmin {
                                    d
                                } else {
                                    ex.dmin
                                },
                                dmax: if d > ex.dmax {
                                    d
                                } else {
                                    ex.dmax
                                },
                            },
                        ),
                    };
                    proof {
                        assert(pairs@[pairs@.len() - 1] == (EdgeInfo { u, v, dij: d }));
                        assert forall|x: EdgeInfo| pairs_pre.contains(x) implies pairs@.contains(
                            x,
                        ) by {
                            let p = choose|p: int| 0 <= p < pairs_pre.len() && pairs_pre[p] == x;
                            assert(pairs@[p] == x);
                        };
                    }
                }
                v = v + 1;
            }
        }
        let r: (Vec<EdgeInfo>, Option<DistExtremes>) = (pairs, extremes);
        proof {
            assert(r.0@ == pairs@ && r.1 == extremes);
            match extremes {
                Some(ex) => {
                    let p1 = choose|p: int|
                        0 <= p < pairs@.len() && (#[trigger] pairs@[p]).dij == ex.dmin;
                    assert((#[trigger] r.0@[p1]).dij == ex.dmin);
                    let p2 = choose|p: int|
                        0 <= p < pairs@.len() && (#[trigger] pairs@[p]).dij == ex.dmax;
                    assert((#[trigger] r.0@[p2]).dij == ex.dmax);
                },
                None => {},
            }
        }
        r
    }
}

impl Graph {
    /// The pair data the relaxation engine is built on, derived from the
    /// graph alone: every unordered pair `u < v` joined by some walk, with
    /// its exact hop-count distance, in ascending order, plus the distance
    /// extremes. `None` extremes mean no pair is reachable: the degenerate
    /// input the caller must reject before deriving weights and rates.
    pub fn calc_pair_distances(&self) -> (r: (Vec<EdgeInfo>, Option<DistExtremes>))
        requires
            self.well_formed(),
            self.node_size < usize::MAX,
        ensures
            forall|p: int|
                0 <= p < r.0@.len() ==> {
                    let e = #[trigger] r.0@[p];
                    &&& e.u < e.v < self.node_size
                    &&& self.dist_is(e.u as int, e.v as int, e.dij as nat)
                    &&& 1 <= e.dij < self.node_size
                },
            forall|u: int, v: int|
                0 <= u < v < self.node_size && #[trigger] self.reachable(u, v) ==> exists|p: int|
                    0 <= p < r.0@.len() && (#[trigger] r.0@[p]).u == u && r.0@[p].v == v,
            forall|p1: int, p2: int|
                #![trigger r.0@[p1], r.0@[p2]]
                0 <= p1 < p2 < r.0@.len() ==> (r.0@[p1].u < r.0@[p2].u || (r.0@[p1].u == r.0@[p2].u
                    && r.0@[p1].v < r.0@[p2].v)),
            r.1 is Some <==> r.0@.len() > 0,
            r.1 matches Some(ex) ==> exists|p: int|
                0 <= p < r.0@.len() && (#[trigger] r.0@[p]).dij == ex.dmin,
            r.1 matches Some(ex) ==> exists|p: int|
                0 <= p < r.0@.len() && (#[trigger] r.0@[p]).dij == ex.dmax,
            r.1 matches Some(ex) ==> forall|p: int|
                0 <= p < r.0@.len() ==> ex.dmin <= (#[trigger] r.0@[p]).dij <= ex.dmax,
    {
        let dist: Vec<Vec<usize>> = self.calc_dist_matrix();
        let ghost mv = dist@.map_values(|row: Vec<usize>| row@);
        proof {
            assert forall|i: int| 0 <= i < dist@.len() implies (#[trigger] dist@[i])@.len()
                == dist@.len() by {
                assert(self.dist_row_correct(i, mv[i]));
                assert(mv[i] == dist@[i]@);
            };
        }
        let r = self.calc_edge_info(&dist);
        proof {
            lemma_pairs_match_reachability(self, mv, r.0@);
            assert forall|p: int| 0 <= p < r.0@.len() implies {
                let e = #[trigger] r.0@[p];
                &&& e.u < e.v < self.node_size
                &&& self.dist_is(e.u as int, e.v as int, e.dij as nat)
                &&& 1 <= e.dij < self.node_size
            } by {
                let e = r.0@[p];
                assert(self.reachable(e.u as int, e.v as int));
                assert(self.dist_row_correct(e.u as int, mv[e.u as int]));
                assert(mv[e.u as int][e.v as int] == dist@[e.u as int]@[e.v as int]);
            };
            assert forall|u: int, v: int|
                0 <= u < v < self.node_size && #[trigger] self.reachable(u, v) implies exists|
                p: int,
            |
                0 <= p < r.0@.len() && (#[trigger] r.0@[p]).u == u && r.0@[p].v == v by {
                assert(mv[u][v] == dist@[u]@[v]);
                assert(r.0@.contains(
                    (EdgeInfo { u: u as usize, v: v as usize, dij: mv[u][v] }),
                ));
                let p = choose|p: int|
                    0 <= p < r.0@.len() && r.0@[p] == (EdgeInfo {
                        u: u as usize,
                        v: v as usize,
                        dij: mv[u][v],
                    });
                assert(r.0@[p].u == u && r.0@[p].v == v);
            };
        }
        r
    }
}

/// Exactly the pairs at a finite distance are retained: every listed pair
/// is reachable, and every reachable unordered pair of distinct nodes is
/// listed. Cross-component pairs of a disconnected graph are excluded
/// entirely.
pub proof fn lemma_pairs_match_reachability(g: &Graph, m: Seq<Seq<usize>>, pairs: Seq<EdgeInfo>)
    requires
        g.well_formed(),
        g.dist_matrix_correct(m),
        forall|p: int|
            0 <= p < pairs.len() ==> {
                let e = #[trigger] pairs[p];
                &&& e.u < e.v < m.len()
                &&& m[e.u as int][e.v as int] == e.dij
                &&& 1 <= e.dij < usize::MAX
            },
        forall|u: int, v: int|
            #![trigger m[u][v]]
            0 <= u < v < m.len() && m[u][v] != usize::MAX && m[u][v] >= 1 ==> pairs.contains(
                (EdgeInfo { u: u as usize, v: v as usize, dij: m[u][v] }),
            ),
    ensures
        forall|p: int|
            0 <= p < pairs.len() ==> g.reachable((#[trigger] pairs[p]).u as int, pairs[p].v as int),
        forall|u: int, v: int|
            #![trigger m[u][v]]
            0 <= u < v < g.node_size && g.reachable(u, v) ==> pairs.contains(
                (EdgeInfo { u: u as usize, v: v as usize, dij: m[u][v] }),
            ),
{
    assert forall|p: int| 0 <= p < pairs.len() implies g.reachable(
        (#[trigger] pairs[p]).u as int,
        pairs[p].v as int,
    ) by {
        let e = pairs[p];
        assert(g.dist_row_correct(e.u as int, m[e.u as int]));
        if !g.reachable(e.u as int, e.v as int) {
            assert(m[e.u as int][e.v as int] == usize::MAX);
        }
    };
    assert forall|u: int, v: int|
        0 <= u < v < g.node_size && g.reachable(u, v) implies pairs.contains(
        (EdgeInfo { u: u as usize, v: v as usize, dij: #[trigger] m[u][v] }),
    ) by {
        assert(g.dist_row_correct(u, m[u]));
        assert(m[u][v] < g.node_size && g.dist_is(u, v, m[u][v] as nat));
        if m[u][v] == 0 {
            assert(g.reach_within(u, v, 0));
        }
        assert(m[u][v] >= 1);
        assert(m[u][v] != usize::MAX);
    };
}

} // verus!
