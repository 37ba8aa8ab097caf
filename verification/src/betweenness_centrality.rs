//! Single-source shortest-path exploration and Brandes-style
//! dependency accumulation over the weighted directed graph.
//!
//! The per-source step first runs a Dijkstra-style exploration that
//! settles nodes in nondecreasing distance order, counting shortest
//! paths and recording shortest-path predecessors, then walks the
//! settled nodes in reverse, accumulating each node's dependency from
//! its successors with exact rational arithmetic.

use vstd::prelude::*;
use vstd::set_lib::lemma_int_range;
use vstd::set_lib::lemma_len_subset;
use crate::ratio::{Ratio, ratio_add, ratio_mul, spec_one, spec_ratio_add, spec_ratio_mul, spec_zero};
use crate::digraph::{graph_edge_list, graph_edges, graph_node_count, graph_nodes};

verus! {

/// The maximum edge weight the engine admits: the span of the wins
/// difference of two 32-bit values.
pub open spec fn max_weight() -> int {
    0xffff_ffff
}

/// Every edge references nodes below `n` and carries a bounded,
/// non-negative weight.
pub open spec fn edges_wf(edges: Seq<(usize, usize, i64)>, n: int) -> bool {
    forall|k: int|
        0 <= k < edges.len() ==> (#[trigger] edges[k]).0 < n && edges[k].1 < n && 0 <= edges[k].2
            <= max_weight()
}

/// Addition of path counts, saturating at the machine-word maximum.
pub open spec fn cap_add(a: u64, b: u64) -> u64 {
    if a + b > u64::MAX {
        u64::MAX
    } else {
        (a + b) as u64
    }
}

/// The saturating sum of the path counts of the listed predecessors.
pub open spec fn sigma_sum(ps: Seq<usize>, sigma: Seq<u64>) -> u64
    decreases ps.len(),
{
    if ps.len() == 0 {
        0u64
    } else {
        cap_add(sigma_sum(ps.drop_last(), sigma), sigma[ps.last() as int])
    }
}

/// The result of the single-source shortest-path step from `s`:
/// distances, path counts, predecessor lists, and the settle order.
///
/// Together these clauses pin the distances to the shortest-path
/// distances: every finite distance is witnessed by a predecessor edge
/// chain back to `s` (no distance is too small), and no edge can relax
/// any finite distance further (no distance is too large). Path counts
/// satisfy the shortest-path counting recurrence, saturating at the
/// word size, and predecessors always precede their successors in the
/// settle order.
pub open spec fn sp_state(
    n: int,
    edges: Seq<(usize, usize, i64)>,
    s: int,
    dist: Seq<Option<u64>>,
    sigma: Seq<u64>,
    preds: Seq<Seq<usize>>,
    order: Seq<usize>,
) -> bool {
    &&& dist.len() == n
    &&& sigma.len() == n
    &&& preds.len() == n
    &&& dist[s] == Some(0u64)
    &&& sigma[s] == 1
    &&& preds[s].len() == 0
    &&& order.no_duplicates()
    &&& forall|m: int| 0 <= m < order.len() ==> (#[trigger] order[m]) < n
    &&& forall|m: int| 0 <= m < order.len() ==> dist[(#[trigger] order[m]) as int] is Some
    &&& forall|v: int| 0 <= v < n && (#[trigger] dist[v]) is Some ==> order.contains(v as usize)
    &&& forall|m1: int, m2: int|
        #![trigger order[m1], order[m2]]
        0 <= m1 < m2 < order.len() ==> dist[order[m1] as int]->0 <= dist[order[m2] as int]->0
    &&& forall|k: int|
        #![trigger edges[k]]
        0 <= k < edges.len() && dist[edges[k].0 as int] is Some ==> dist[edges[k].1 as int] is Some
            && dist[edges[k].1 as int]->0 <= dist[edges[k].0 as int]->0 + edges[k].2
    &&& forall|v: int|
        0 <= v < n && (#[trigger] dist[v]) is None ==> sigma[v] == 0 && preds[v].len() == 0
    &&& forall|v: int| 0 <= v < n && (#[trigger] dist[v]) is Some ==> sigma[v] >= 1
    &&& forall|v: int|
        0 <= v < n && v != s && (#[trigger] dist[v]) is Some ==> preds[v].len() >= 1 && sigma[v]
            == sigma_sum(preds[v], sigma)
    &&& forall|v: int, t: int|
        #![trigger preds[v][t]]
        0 <= v < n && 0 <= t < preds[v].len() ==> preds[v][t] < n && exists|k: int|
            0 <= k < edges.len() && (#[trigger] edges[k]).0 == preds[v][t] && edges[k].1 == v
                && dist[preds[v][t] as int] is Some && dist[v] is Some && dist[preds[v][t] as int]->0
                + edges[k].2 == dist[v]->0
    &&& forall|v: int, t: int|
        #![trigger preds[v][t]]
        0 <= v < n && 0 <= t < preds[v].len() ==> preds[v][t] < n && exists|m1: int, m2: int|
            #![trigger order[m1], order[m2]]
            0 <= m1 < m2 < order.len() && order[m1] == preds[v][t] && order[m2] == v
}

/// A sequence without duplicates whose members lie below `n` has at
/// most `n` entries.
proof fn lemma_order_len_bound(order: Seq<usize>, n: int)
    requires
        order.no_duplicates(),
        forall|m: int| 0 <= m < order.len() ==> (#[trigger] order[m]) < n,
        n >= 0,
    ensures
        order.len() <= n,
{
    let oi = order.map_values(|x: usize| x as int);
    assert(oi.no_duplicates()) by {
        assert forall|m1: int, m2: int|
            0 <= m1 < oi.len() && 0 <= m2 < oi.len() && m1 != m2 implies oi[m1] != oi[m2] by {
            assert(order[m1] != order[m2]);
        }
    }
    oi.unique_seq_to_set();
    lemma_int_range(0, n);
    assert(oi.to_set().subset_of(vstd::set_lib::set_int_range(0, n))) by {
        assert forall|x: int| oi.to_set().contains(x) implies vstd::set_lib::set_int_range(
            0,
            n,
        ).contains(x) by {
            let m = choose|m: int| 0 <= m < oi.len() && oi[m] == x;
            assert(order[m] < n);
        }
    }
    lemma_len_subset(oi.to_set(), vstd::set_lib::set_int_range(0, n));
}

/// `sigma_sum` only reads the counts at the listed positions.
proof fn lemma_sigma_sum_stable(ps: Seq<usize>, s1: Seq<u64>, s2: Seq<u64>)
    requires
        forall|t: int| 0 <= t < ps.len() ==> 0 <= (#[trigger] ps[t]) < s1.len(),
        s1.len() == s2.len(),
        forall|t: int| 0 <= t < ps.len() ==> s1[(#[trigger] ps[t]) as int] == s2[ps[t] as int],
    ensures
        sigma_sum(ps, s1) == sigma_sum(ps, s2),
    decreases ps.len(),
{
    if ps.len() == 0 {
    } else {
        assert forall|t: int| 0 <= t < ps.drop_last().len() implies 0 <= (#[trigger] ps.drop_last()[t])
            < s1.len() && s1[ps.drop_last()[t] as int] == s2[ps.drop_last()[t] as int] by {
            assert(ps.drop_last()[t] == ps[t]);
        }
        lemma_sigma_sum_stable(ps.drop_last(), s1, s2);
        assert(s1[ps.last() as int] == s2[ps.last() as int]);
    }
}

fn cap_add_u64(a: u64, b: u64) -> (r: u64)
    ensures
        r == cap_add(a, b),
{
    if a > u64::MAX - b {
        u64::MAX
    } else {
        a + b
    }
}

/// The unsettled node with the smallest finite distance, preferring the
/// smallest index on ties; `None` when every unsettled node is
/// unreachable so far.
fn pick_min(dist: &Vec<Option<u64>>, settled: &Vec<bool>) -> (r: Option<usize>)
    requires
        dist@.len() == settled@.len(),
    ensures
        match r {
            Some(u) => u < dist@.len() && !settled@[u as int] && dist@[u as int] is Some && forall|
                x: int,
            |
                0 <= x < dist@.len() && !settled@[x] && (#[trigger] dist@[x]) is Some ==> dist@[u
                    as int]->0 <= dist@[x]->0,
            None => forall|x: int|
                0 <= x < dist@.len() && !settled@[x] ==> (#[trigger] dist@[x]) is None,
        },
{
    let n = dist.len();
    let mut best: Option<usize> = None;
    let mut v: usize = 0;
    while v < n
        invariant
            n == dist@.len() == settled@.len(),
            v <= n,
            match best {
                Some(u) => u < v && !settled@[u as int] && dist@[u as int] is Some && forall|
                    x: int,
                |
                    0 <= x < v && !settled@[x] && (#[trigger] dist@[x]) is Some ==> dist@[u
                        as int]->0 <= dist@[x]->0,
                None => forall|x: int|
                    0 <= x < v && !settled@[x] ==> (#[trigger] dist@[x]) is None,
            },
        decreases n - v,
    {
        if !settled[v] {
            if let Some(dv) = dist[v] {
                match best {
                    None => {
                        best = Some(v);
                    },
                    Some(u) => {
                        let du = dist[u].unwrap();
                        if dv < du {
                            best = Some(v);
                        }
                    },
                }
            }
        }
        v += 1;
    }
    best
}

/// The invariant state of the exploration: what holds of distances,
/// counts, predecessors, the settled set and the settle order at every
/// step.
pub open spec fn explore_inv(
    n: int,
    edges: Seq<(usize, usize, i64)>,
    s: int,
    dist: Seq<Option<u64>>,
    sigma: Seq<u64>,
    preds: Seq<Seq<usize>>,
    settled: Seq<bool>,
    order: Seq<usize>,
) -> bool {
    &&& dist.len() == n
    &&& sigma.len() == n
    &&& preds.len() == n
    &&& settled.len() == n
    &&& 0 <= s < n
    &&& dist[s] == Some(0u64)
    &&& sigma[s] == 1
    &&& preds[s].len() == 0
    &&& order.no_duplicates()
    &&& forall|m: int|
        0 <= m < order.len() ==> (#[trigger] order[m]) < n && settled[order[m] as int]
    &&& forall|v: int| 0 <= v < n && (#[trigger] settled[v]) ==> order.contains(v as usize)
    &&& forall|v: int| 0 <= v < n && (#[trigger] settled[v]) ==> dist[v] is Some
    &&& forall|v: int|
        0 <= v < n && (#[trigger] dist[v]) is None ==> sigma[v] == 0 && preds[v].len() == 0
    &&& forall|x: int, y: int|
        #![trigger settled[x], settled[y]]
        0 <= x < n && 0 <= y < n && settled[x] && !settled[y] && dist[y] is Some ==> dist[x]->0
            <= dist[y]->0
    &&& forall|m1: int, m2: int|
        #![trigger order[m1], order[m2]]
        0 <= m1 < m2 < order.len() ==> dist[order[m1] as int]->0 <= dist[order[m2] as int]->0
    &&& forall|v: int| 0 <= v < n && (#[trigger] dist[v]) is Some ==> sigma[v] >= 1
    &&& forall|v: int|
        0 <= v < n && v != s && (#[trigger] dist[v]) is Some ==> preds[v].len() >= 1 && sigma[v]
            == sigma_sum(preds[v], sigma)
    &&& forall|v: int, t: int|
        #![trigger preds[v][t]]
        0 <= v < n && 0 <= t < preds[v].len() ==> preds[v][t] < n && settled[preds[v][t] as int]
            && exists|k: int|
            0 <= k < edges.len() && (#[trigger] edges[k]).0 == preds[v][t] && edges[k].1 == v
                && dist[preds[v][t] as int] is Some && dist[v] is Some && dist[preds[v][t] as int]->0
                + edges[k].2 == dist[v]->0
    &&& forall|v: int, t: int|
        #![trigger preds[v][t]]
        0 <= v < n && 0 <= t < preds[v].len() && settled[v] ==> exists|m1: int, m2: int|
            #![trigger order[m1], order[m2]]
            0 <= m1 < m2 < order.len() && order[m1] == preds[v][t] && order[m2] == v
    &&& forall|v: int|
        0 <= v < n && (#[trigger] dist[v]) is Some ==> dist[v]->0 <= order.len() * max_weight()
    &&& (order.len() == 0 ==> forall|v: int|
        0 <= v < n && (#[trigger] dist[v]) is Some ==> v == s)
    &&& (order.len() > 0 ==> settled[s])
}

/// One relaxation of the edge `k` from the just-settled node `u`
/// preserves the exploration invariant.
#[verifier::rlimit(60)]
proof fn restore_inv(
    n: int,
    edges: Seq<(usize, usize, i64)>,
    s: int,
    dist0: Seq<Option<u64>>,
    sigma0: Seq<u64>,
    preds0: Seq<Seq<usize>>,
    dist1: Seq<Option<u64>>,
    sigma1: Seq<u64>,
    preds1: Seq<Seq<usize>>,
    settled: Seq<bool>,
    order: Seq<usize>,
    u: int,
    b: int,
    k: int,
    du: u64,
    nd: u64,
)
    requires
        explore_inv(n, edges, s, dist0, sigma0, preds0, settled, order),
        edges_wf(edges, n),
        0 <= k < edges.len(),
        edges[k].0 == u,
        edges[k].1 == b,
        0 <= u < n,
        0 <= b < n,
        settled[u],
        dist0[u] == Some(du),
        order.len() >= 1,
        order[order.len() - 1] == u as usize,
        nd == du + edges[k].2,
        nd <= order.len() * max_weight(),
        forall|x: int| 0 <= x < n && (#[trigger] settled[x]) ==> dist0[x]->0 <= du,
        ({
            if dist0[b] is None || nd < dist0[b]->0 {
                &&& dist1 == dist0.update(b, Some(nd))
                &&& sigma1 == sigma0.update(b, sigma0[u])
                &&& preds1 == preds0.update(b, seq![u as usize])
            } else if nd == dist0[b]->0 && !settled[b] {
                &&& dist1 == dist0
                &&& sigma1 == sigma0.update(b, cap_add(sigma0[b], sigma0[u]))
                &&& preds1 == preds0.update(b, preds0[b].push(u as usize))
            } else {
                &&& dist1 == dist0
                &&& sigma1 == sigma0
                &&& preds1 == preds0
            }
        }),
    ensures
        explore_inv(n, edges, s, dist1, sigma1, preds1, settled, order),
        forall|x: int| 0 <= x < n && (#[trigger] settled[x]) ==> dist1[x] == dist0[x],
        forall|x: int|
            0 <= x < n && (#[trigger] dist0[x]) is Some ==> dist1[x] is Some && dist1[x]->0
                <= dist0[x]->0,
        forall|x: int| 0 <= x < n && x != b ==> (#[trigger] dist1[x]) == dist0[x],
        dist1[b] is Some && dist1[b]->0 <= nd,
{
    let wk = edges[k].2;
    assert(settled[s]);
    if dist0[b] is None || nd < dist0[b]->0 {
        if settled[b] {
            assert(dist0[b] is Some);
            assert(dist0[b]->0 <= du);
            assert(false);
        }
        assert(b != s);
        assert(b != u);
        // the updated node keeps the counting recurrence over its one
        // predecessor
        assert(seq![u as usize].drop_last() =~= Seq::<usize>::empty());
        assert(sigma_sum(Seq::<usize>::empty(), sigma1) == 0u64);
        assert(seq![u as usize].len() == 1);
        assert(seq![u as usize].last() == u as usize);
        assert(sigma_sum(seq![u as usize], sigma1) == cap_add(
            sigma_sum(seq![u as usize].drop_last(), sigma1),
            sigma1[u],
        ));
        assert(sigma_sum(seq![u as usize], sigma1) == cap_add(0u64, sigma1[u]));
        assert(sigma1[u] == sigma0[u]);
        assert(sigma_sum(seq![u as usize], sigma1) == sigma0[u]);
        assert forall|v: int|
            0 <= v < n && v != s && (#[trigger] dist1[v]) is Some implies preds1[v].len() >= 1
                && sigma1[v] == sigma_sum(preds1[v], sigma1) by {
            if v == b {
            } else {
                assert(dist0[v] is Some);
                assert forall|t: int| 0 <= t < preds0[v].len() implies 0 <= (#[trigger] preds0[v][t])
                    < sigma0.len() && sigma0[preds0[v][t] as int] == sigma1[preds0[v][t] as int] by {
                    assert(settled[preds0[v][t] as int]);
                }
                lemma_sigma_sum_stable(preds0[v], sigma0, sigma1);
            }
        }
        assert forall|v: int, t: int|
            #![trigger preds1[v][t]]
            0 <= v < n && 0 <= t < preds1[v].len() implies preds1[v][t] < n
                && settled[preds1[v][t] as int] && exists|kk: int|
                0 <= kk < edges.len() && (#[trigger] edges[kk]).0 == preds1[v][t] && edges[kk].1
                    == v && dist1[preds1[v][t] as int] is Some && dist1[v] is Some
                && dist1[preds1[v][t] as int]->0 + edges[kk].2 == dist1[v]->0 by {
            if v == b {
                assert(preds1[b][0] == u as usize);
                assert(edges[k].0 == u && edges[k].1 == b && dist1[u] is Some && dist1[b] is Some
                    && dist1[u]->0 + edges[k].2 == dist1[b]->0);
            } else {
                assert(preds1[v] == preds0[v]);
                let kk = choose|kk: int|
                    0 <= kk < edges.len() && (#[trigger] edges[kk]).0 == preds0[v][t]
                        && edges[kk].1 == v && dist0[preds0[v][t] as int] is Some
                        && dist0[v] is Some && dist0[preds0[v][t] as int]->0 + edges[kk].2
                        == dist0[v]->0;
                assert(settled[preds0[v][t] as int]);
                assert(preds0[v][t] != b as usize);
                assert(edges[kk].0 == preds1[v][t] && edges[kk].1 == v
                    && dist1[preds1[v][t] as int] is Some && dist1[v] is Some
                    && dist1[preds1[v][t] as int]->0 + edges[kk].2 == dist1[v]->0);
            }
        }
        assert forall|v: int, t: int|
            #![trigger preds1[v][t]]
            0 <= v < n && 0 <= t < preds1[v].len() && settled[v] implies exists|m1: int, m2: int|
            #![trigger order[m1], order[m2]]
            0 <= m1 < m2 < order.len() && order[m1] == preds1[v][t] && order[m2] == v by {
            assert(v != b);
            assert(preds1[v][t] == preds0[v][t]);
        }
    } else if nd == dist0[b]->0 && !settled[b] {
        assert(b != s);
        assert(b != u);
        assert(dist0[b] is Some);
        // the appended predecessor extends the counting recurrence
        assert forall|v: int|
            0 <= v < n && v != s && (#[trigger] dist1[v]) is Some implies preds1[v].len() >= 1
                && sigma1[v] == sigma_sum(preds1[v], sigma1) by {
            if v == b {
                let pb = preds0[b].push(u as usize);
                assert(pb.drop_last() =~= preds0[b]);
                assert(pb.last() == u as usize);
                assert(sigma_sum(pb, sigma1) == cap_add(
                    sigma_sum(preds0[b], sigma1),
                    sigma1[u],
                ));
                assert forall|t: int| 0 <= t < preds0[b].len() implies 0 <= (#[trigger] preds0[b][t])
                    < sigma0.len() && sigma0[preds0[b][t] as int] == sigma1[preds0[b][t] as int] by {
                    assert(settled[preds0[b][t] as int]);
                }
                lemma_sigma_sum_stable(preds0[b], sigma0, sigma1);
                assert(sigma_sum(preds0[b], sigma1) == sigma0[b]);
                assert(sigma1[u] == sigma0[u]);
            } else {
                assert(dist0[v] is Some);
                assert forall|t: int| 0 <= t < preds0[v].len() implies 0 <= (#[trigger] preds0[v][t])
                    < sigma0.len() && sigma0[preds0[v][t] as int] == sigma1[preds0[v][t] as int] by {
                    assert(settled[preds0[v][t] as int]);
                }
                lemma_sigma_sum_stable(preds0[v], sigma0, sigma1);
            }
        }
        assert forall|v: int, t: int|
            #![trigger preds1[v][t]]
            0 <= v < n && 0 <= t < preds1[v].len() implies preds1[v][t] < n
                && settled[preds1[v][t] as int] && exists|kk: int|
                0 <= kk < edges.len() && (#[trigger] edges[kk]).0 == preds1[v][t] && edges[kk].1
                    == v && dist1[preds1[v][t] as int] is Some && dist1[v] is Some
                && dist1[preds1[v][t] as int]->0 + edges[kk].2 == dist1[v]->0 by {
            if v == b && t == preds1[b].len() - 1 {
                assert(preds1[b][t] == u as usize);
                assert(edges[k].0 == u && edges[k].1 == b && dist1[u] is Some && dist1[b] is Some
                    && dist1[u]->0 + edges[k].2 == dist1[b]->0);
            } else {
                let pv0 = preds0[v];
                assert(preds1[v][t] == pv0[t]);
                let kk = choose|kk: int|
                    0 <= kk < edges.len() && (#[trigger] edges[kk]).0 == pv0[t] && edges[kk].1 == v
                        && dist0[pv0[t] as int] is Some && dist0[v] is Some && dist0[pv0[t] as int]->0
                        + edges[kk].2 == dist0[v]->0;
                assert(edges[kk].0 == preds1[v][t] && edges[kk].1 == v
                    && dist1[preds1[v][t] as int] is Some && dist1[v] is Some
                    && dist1[preds1[v][t] as int]->0 + edges[kk].2 == dist1[v]->0);
            }
        }
        assert forall|v: int, t: int|
            #![trigger preds1[v][t]]
            0 <= v < n && 0 <= t < preds1[v].len() && settled[v] implies exists|m1: int, m2: int|
            #![trigger order[m1], order[m2]]
            0 <= m1 < m2 < order.len() && order[m1] == preds1[v][t] && order[m2] == v by {
            assert(v != b);
            assert(preds1[v][t] == preds0[v][t]);
        }
        assert(sigma1[b] >= 1);
    } else {
    }
}

/// Single-source shortest-path exploration from `s`, Dijkstra-style:
/// per-node distances, saturating shortest-path counts, shortest-path
/// predecessor lists, and the settle order.
pub fn shortest_paths(n: usize, edges: &Vec<(usize, usize, i64)>, s: usize) -> (r: (
    Vec<Option<u64>>,
    Vec<u64>,
    Vec<Vec<usize>>,
    Vec<usize>,
))
    requires
        s < n,
        n <= 0xffff_ffff,
        edges_wf(edges@, n as int),
    ensures
        sp_state(n as int, edges@, s as int, r.0@, r.1@, r.2.deep_view(), r.3@),
        r.0@.len() == n && r.1@.len() == n && r.2@.len() == n && r.2.deep_view().len() == n,
        r.3@.len() <= n,
{
    let mut dist: Vec<Option<u64>> = Vec::new();
    let mut sigma: Vec<u64> = Vec::new();
    let mut preds: Vec<Vec<usize>> = Vec::new();
    let mut settled: Vec<bool> = Vec::new();
    let mut i: usize = 0;
    while i < n
        invariant
            i <= n,
            dist@.len() == i,
            sigma@.len() == i,
            preds@.len() == i,
            settled@.len() == i,
            forall|v: int| 0 <= v < i ==> (#[trigger] dist@[v]) is None,
            forall|v: int| 0 <= v < i ==> (#[trigger] sigma@[v]) == 0,
            forall|v: int| 0 <= v < i ==> (#[trigger] preds@[v])@.len() == 0,
            forall|v: int| 0 <= v < i ==> !(#[trigger] settled@[v]),
        decreases n - i,
    {
        dist.push(None);
        sigma.push(0);
        preds.push(Vec::new());
        settled.push(false);
        i += 1;
    }
    dist[s] = Some(0);
    sigma[s] = 1;
    let mut order: Vec<usize> = Vec::new();
    proof {
        assert(preds.deep_view().len() == n);
        assert forall|v: int| 0 <= v < n implies (#[trigger] preds.deep_view()[v]).len() == 0 by {
            assert(preds.deep_view()[v] == preds@[v]@);
        }
    }

    let mut done = false;
    while !done
        invariant
            s < n <= 0xffff_ffff,
            edges_wf(edges@, n as int),
            explore_inv(
                n as int,
                edges@,
                s as int,
                dist@,
                sigma@,
                preds.deep_view(),
                settled@,
                order@,
            ),
            order@.len() <= n,
            forall|kk: int|
                #![trigger edges@[kk]]
                0 <= kk < edges@.len() && settled@[edges@[kk].0 as int]
                    ==> dist@[edges@[kk].1 as int] is Some && dist@[edges@[kk].1 as int]->0
                    <= dist@[edges@[kk].0 as int]->0 + edges@[kk].2,
            done ==> forall|x: int|
                0 <= x < n && !(#[trigger] settled@[x]) ==> dist@[x] is None,
        decreases n - order@.len() + if done {
            0int
        } else {
            1int
        },
    {
        match pick_min(&dist, &settled) {
            None => {
                done = true;
            },
            Some(u) => {
                let ghost order0 = order@;
                let du = dist[u].unwrap();
                proof {
                    if order0.len() == 0 {
                        assert(u == s);
                    }
                    assert forall|m: int| 0 <= m < order0.len() implies order0[m] != u
                        as usize by {
                        assert(settled@[order0[m] as int]);
                    }
                    assert(du <= order0.len() * max_weight());
                }
                settled[u] = true;
                order.push(u);
                proof {
                    assert(order@.no_duplicates());
                    lemma_order_len_bound(order@, n as int);
                    assert forall|v: int|
                        0 <= v < n && (#[trigger] settled@[v]) implies order@.contains(
                        v as usize,
                    ) by {
                        if v == u {
                            assert(order@[order@.len() - 1] == u as usize);
                        } else {
                            let m = choose|m: int| 0 <= m < order0.len() && order0[m] == v as usize;
                            assert(order@[m] == v as usize);
                        }
                    }
                    assert forall|x: int|
                        0 <= x < n && (#[trigger] settled@[x]) implies dist@[x]->0 <= du by {
                        if x != u {
                            assert(dist@[x]->0 <= du);
                        }
                    }
                    assert forall|m1: int, m2: int|
                        #![trigger order@[m1], order@[m2]]
                        0 <= m1 < m2 < order@.len() implies dist@[order@[m1] as int]->0
                            <= dist@[order@[m2] as int]->0 by {
                        if m2 == order@.len() - 1 {
                            assert(order@[m2] == u as usize);
                            assert(settled@[order@[m1] as int]);
                        } else {
                            assert(order@[m1] == order0[m1] && order@[m2] == order0[m2]);
                        }
                    }
                    assert forall|v: int, t: int|
                        #![trigger preds.deep_view()[v][t]]
                        0 <= v < n && 0 <= t < preds.deep_view()[v].len() && settled@[v] implies exists|
                        m1: int,
                        m2: int,
                    |
                        #![trigger order@[m1], order@[m2]]
                        0 <= m1 < m2 < order@.len() && order@[m1] == preds.deep_view()[v][t]
                            && order@[m2] == v by {
                        if v == u {
                            let p = preds.deep_view()[v][t];
                            assert(settled@[p as int]);
                            assert(p != u as usize);
                            assert(order0.contains(p as usize));
                            let m1 = choose|m1: int|
                                0 <= m1 < order0.len() && order0[m1] == p as usize;
                            assert(order@[m1] == p as usize);
                            assert(order@[order@.len() - 1] == u as usize);
                        } else {
                            assert(settled@[v]);
                            let (m1, m2) = choose|m1: int, m2: int|
                                #![trigger order0[m1], order0[m2]]
                                0 <= m1 < m2 < order0.len() && order0[m1] == preds.deep_view()[v][t]
                                    && order0[m2] == v;
                            assert(order@[m1] == order0[m1] && order@[m2] == order0[m2]);
                        }
                    }
                    assert forall|v: int|
                        0 <= v < n && (#[trigger] dist@[v]) is Some implies dist@[v]->0
                            <= order@.len() * max_weight() by {
                        assert(dist@[v]->0 <= order0.len() * max_weight());
                        assert(order0.len() * max_weight() <= order@.len() * max_weight())
                            by (nonlinear_arith)
                            requires
                                order0.len() + 1 == order@.len(),
                        ;
                    }
                }
                let n_edges = edges.len();
                let mut k: usize = 0;
                while k < n_edges
                    invariant
                        s < n <= 0xffff_ffff,
                        n_edges == edges@.len(),
                        edges_wf(edges@, n as int),
                        k <= n_edges,
                        u < n,
                        settled@[u as int],
                        dist@[u as int] == Some(du),
                        order@.len() >= 1,
                        order@[order@.len() - 1] == u,
                        du <= (order@.len() - 1) * max_weight(),
                        explore_inv(
                            n as int,
                            edges@,
                            s as int,
                            dist@,
                            sigma@,
                            preds.deep_view(),
                            settled@,
                            order@,
                        ),
                        order@.len() <= n,
                        forall|x: int|
                            0 <= x < n && (#[trigger] settled@[x]) ==> dist@[x]->0 <= du,
                        forall|kk: int|
                            #![trigger edges@[kk]]
                            0 <= kk < edges@.len() && settled@[edges@[kk].0 as int]
                                && edges@[kk].0 != u ==> dist@[edges@[kk].1 as int] is Some
                                && dist@[edges@[kk].1 as int]->0 <= dist@[edges@[kk].0 as int]->0
                                + edges@[kk].2,
                        forall|kk: int|
                            #![trigger edges@[kk]]
                            0 <= kk < k && edges@[kk].0 == u ==> dist@[edges@[kk].1 as int] is Some
                                && dist@[edges@[kk].1 as int]->0 <= du + edges@[kk].2,
                    decreases n_edges - k,
                {
                    let (a, b, w) = edges[k];
                    if a == u {
                        proof {
                            assert(edges@[k as int].2 <= max_weight());
                            assert((order@.len() - 1) * max_weight() + max_weight() == order@.len()
                                * max_weight()) by (nonlinear_arith);
                            assert(order@.len() * max_weight() <= 0xffff_ffff * 0xffff_ffffi64)
                                by (nonlinear_arith)
                                requires
                                    order@.len() <= 0xffff_ffff,
                            ;
                        }
                        let nd = du + (w as u64);
                        let ghost dist_pre = dist@;
                        let ghost sigma_pre = sigma@;
                        let ghost preds_pre = preds.deep_view();
                        let ghost predsv_pre = preds@;
                        proof {
                            assert forall|v2: int| 0 <= v2 < preds@.len() implies (
                            #[trigger] preds_pre[v2]) == predsv_pre[v2]@ by {
                                assert(preds.deep_view()[v2] == preds@[v2]@);
                            }
                        }
                        let mut skip = true;
                        match dist[b] {
                            None => {
                                skip = false;
                                dist[b] = Some(nd);
                                let su = sigma[u];
                                sigma[b] = su;
                                let mut pb: Vec<usize> = Vec::new();
                                pb.push(u);
                                preds[b] = pb;
                            },
                            Some(db) => {
                                if nd < db {
                                    skip = false;
                                    dist[b] = Some(nd);
                                    let su = sigma[u];
                                    sigma[b] = su;
                                    let mut pb: Vec<usize> = Vec::new();
                                    pb.push(u);
                                    preds[b] = pb;
                                } else if nd == db && !settled[b] {
                                    skip = false;
                                    let sb = sigma[b];
                                    let su = sigma[u];
                                    sigma[b] = cap_add_u64(sb, su);
                                    preds[b].push(u);
                                }
                            },
                        }
                        proof {
                            if skip {
                                assert(dist@ == dist_pre && sigma@ == sigma_pre
                                    && preds.deep_view() == preds_pre);
                            } else if dist_pre[b as int] is None || nd < dist_pre[b as int]->0 {
                                assert(dist@ == dist_pre.update(b as int, Some(nd)));
                                assert(sigma@ == sigma_pre.update(
                                    b as int,
                                    sigma_pre[u as int],
                                ));
                                assert forall|v2: int| 0 <= v2 < preds@.len() implies (
                                #[trigger] preds.deep_view()[v2]) == preds_pre.update(
                                    b as int,
                                    seq![u as usize],
                                )[v2] by {
                                    assert(preds.deep_view()[v2] == preds@[v2]@);
                                    if v2 == b {
                                        assert(preds@[v2]@ =~= seq![u as usize]);
                                    } else {
                                        assert(preds@[v2] == predsv_pre[v2]);
                                    }
                                }
                                assert(preds.deep_view() =~= preds_pre.update(
                                    b as int,
                                    seq![u as usize],
                                ));
                            } else {
                                assert(dist@ == dist_pre);
                                assert(sigma@ == sigma_pre.update(
                                    b as int,
                                    cap_add(sigma_pre[b as int], sigma_pre[u as int]),
                                ));
                                assert forall|v2: int| 0 <= v2 < preds@.len() implies (
                                #[trigger] preds.deep_view()[v2]) == preds_pre.update(
                                    b as int,
                                    preds_pre[b as int].push(u),
                                )[v2] by {
                                    assert(preds.deep_view()[v2] == preds@[v2]@);
                                    if v2 == b {
                                        assert(preds@[v2]@ == predsv_pre[v2]@.push(u));
                                    } else {
                                        assert(preds@[v2] == predsv_pre[v2]);
                                    }
                                }
                                assert(preds.deep_view() =~= preds_pre.update(
                                    b as int,
                                    preds_pre[b as int].push(u),
                                ));
                            }
                            restore_inv(
                                n as int,
                                edges@,
                                s as int,
                                dist_pre,
                                sigma_pre,
                                preds_pre,
                                dist@,
                                sigma@,
                                preds.deep_view(),
                                settled@,
                                order@,
                                u as int,
                                b as int,
                                k as int,
                                du,
                                nd,
                            );
                            assert forall|kk: int|
                                #![trigger edges@[kk]]
                                0 <= kk < k + 1 && edges@[kk].0 == u implies dist@[edges@[kk].1
                                as int] is Some && dist@[edges@[kk].1 as int]->0 <= du
                                + edges@[kk].2 by {
                                if kk == k {
                                    assert(dist@[b as int] is Some && dist@[b as int]->0 <= nd);
                                } else {
                                    assert(dist_pre[edges@[kk].1 as int] is Some
                                        && dist_pre[edges@[kk].1 as int]->0 <= du + edges@[kk].2);
                                }
                            }
                        }
                    }
                    k += 1;
                }
            },
        }
    }
    proof {
        assert forall|v: int|
            0 <= v < n && (#[trigger] dist@[v]) is Some implies order@.contains(v as usize) by {
            assert(settled@[v]);
        }
        assert forall|v: int, t: int|
            #![trigger preds.deep_view()[v][t]]
            0 <= v < n && 0 <= t < preds.deep_view()[v].len() implies preds.deep_view()[v][t] < n
            && exists|m1: int, m2: int|
            #![trigger order@[m1], order@[m2]]
            0 <= m1 < m2 < order@.len() && order@[m1] == preds.deep_view()[v][t] && order@[m2]
                == v by {
            assert(preds.deep_view()[v].len() >= 1);
            assert(dist@[v] is Some);
            assert(settled@[v]);
        }
        assert forall|m: int| 0 <= m < order@.len() implies dist@[(#[trigger] order@[m]) as int] is Some by {
            assert(settled@[order@[m] as int]);
        }
        assert forall|kk: int|
            #![trigger edges@[kk]]
            0 <= kk < edges@.len() && dist@[edges@[kk].0 as int] is Some implies dist@[edges@[kk].1
            as int] is Some && dist@[edges@[kk].1 as int]->0 <= dist@[edges@[kk].0 as int]->0
            + edges@[kk].2 by {
            assert(edges@[kk].0 < n);
            if !settled@[edges@[kk].0 as int] {
                assert(dist@[edges@[kk].0 as int] is None);
            }
        }
    }
    (dist, sigma, preds, order)
}

/// One dependency update: `d[v] += (sigma[v] / sigma[w]) * (1 + d[w])`,
/// or `None` if a rational operation overflows.
pub open spec fn acc_step(d: Seq<Ratio>, v: int, w: int, sigma: Seq<u64>) -> Option<Seq<Ratio>> {
    match spec_ratio_add(d[w], spec_one()) {
        Option::None => Option::None,
        Option::Some(x) => match spec_ratio_mul(
            Ratio { num: sigma[v], den: sigma[w] },
            x,
        ) {
            Option::None => Option::None,
            Option::Some(c) => match spec_ratio_add(d[v], c) {
                Option::None => Option::None,
                Option::Some(nv) => Option::Some(d.update(v, nv)),
            },
        },
    }
}

/// Dependency updates for the first `t_end` predecessors of `w`.
pub open spec fn acc_preds(
    d: Seq<Ratio>,
    pw: Seq<usize>,
    w: int,
    sigma: Seq<u64>,
    t_end: int,
) -> Option<Seq<Ratio>>
    decreases t_end,
{
    if t_end <= 0 {
        Option::Some(d)
    } else {
        match acc_preds(d, pw, w, sigma, t_end - 1) {
            Option::None => Option::None,
            Option::Some(d1) => acc_step(d1, pw[t_end - 1] as int, w, sigma),
        }
    }
}

/// Dependency accumulation over the last `steps` nodes of the settle
/// order, processed from the farthest node backwards.
pub open spec fn acc_order(
    d: Seq<Ratio>,
    order: Seq<usize>,
    preds: Seq<Seq<usize>>,
    sigma: Seq<u64>,
    steps: int,
) -> Option<Seq<Ratio>>
    decreases steps,
{
    if steps <= 0 {
        Option::Some(d)
    } else {
        match acc_order(d, order, preds, sigma, steps - 1) {
            Option::None => Option::None,
            Option::Some(d1) => {
                let w = order[order.len() - steps] as int;
                acc_preds(d1, preds[w], w, sigma, preds[w].len() as int)
            },
        }
    }
}

/// A dense vector of zero scores.
pub open spec fn zero_scores(n: int) -> Seq<Ratio> {
    Seq::new(n as nat, |i: int| spec_zero())
}

/// The dependency vector of one source, from its exploration state.
pub open spec fn acc_result(
    n: int,
    order: Seq<usize>,
    preds: Seq<Seq<usize>>,
    sigma: Seq<u64>,
) -> Option<Seq<Ratio>> {
    acc_order(zero_scores(n), order, preds, sigma, order.len() as int)
}

proof fn lemma_acc_preds_none(d: Seq<Ratio>, pw: Seq<usize>, w: int, sigma: Seq<u64>, t1: int, t2: int)
    requires
        0 <= t1 <= t2,
        acc_preds(d, pw, w, sigma, t1) is None,
    ensures
        acc_preds(d, pw, w, sigma, t2) is None,
    decreases t2 - t1,
{
    if t1 < t2 {
        lemma_acc_preds_none(d, pw, w, sigma, t1, t2 - 1);
    }
}

proof fn lemma_acc_order_none(
    d: Seq<Ratio>,
    order: Seq<usize>,
    preds: Seq<Seq<usize>>,
    sigma: Seq<u64>,
    s1: int,
    s2: int,
)
    requires
        0 <= s1 <= s2,
        acc_order(d, order, preds, sigma, s1) is None,
    ensures
        acc_order(d, order, preds, sigma, s2) is None,
    decreases s2 - s1,
{
    if s1 < s2 {
        lemma_acc_order_none(d, order, preds, sigma, s1, s2 - 1);
    }
}

/// Walks the settle order backwards, accumulating each node's
/// dependency into its predecessors with exact rational arithmetic;
/// `None` when a score overflows the rational representation.
pub fn accumulate(n: usize, order: &Vec<usize>, preds: &Vec<Vec<usize>>, sigma: &Vec<u64>) -> (r:
    Option<Vec<Ratio>>)
    requires
        preds@.len() == n,
        sigma@.len() == n,
        order@.len() <= n,
        forall|m: int| 0 <= m < order@.len() ==> (#[trigger] order@[m]) < n,
        forall|m: int| 0 <= m < order@.len() ==> sigma@[(#[trigger] order@[m]) as int] >= 1,
        forall|v: int, t: int|
            #![trigger preds.deep_view()[v][t]]
            0 <= v < n && 0 <= t < preds.deep_view()[v].len() ==> preds.deep_view()[v][t] < n
                && sigma@[preds.deep_view()[v][t] as int] >= 1,
    ensures
        r is Some <==> acc_result(n as int, order@, preds.deep_view(), sigma@) is Some,
        r matches Some(v) ==> Some(v@) == acc_result(n as int, order@, preds.deep_view(), sigma@)
            && v@.len() == n && forall|i: int| 0 <= i < n ==> (#[trigger] v@[i]).wf(),
{
    let ghost pd = preds.deep_view();
    let mut delta: Vec<Ratio> = Vec::new();
    let mut i: usize = 0;
    while i < n
        invariant
            i <= n,
            delta@.len() == i,
            forall|v: int| 0 <= v < i ==> (#[trigger] delta@[v]) == spec_zero(),
        decreases n - i,
    {
        delta.push(Ratio::zero());
        i += 1;
    }
    proof {
        assert(delta@ =~= zero_scores(n as int));
    }
    let mut m = order.len();
    while m > 0
        invariant
            m <= order@.len() <= n,
            pd == preds.deep_view(),
            preds@.len() == n,
            sigma@.len() == n,
            delta@.len() == n,
            forall|mm: int| 0 <= mm < order@.len() ==> (#[trigger] order@[mm]) < n,
            forall|mm: int| 0 <= mm < order@.len() ==> sigma@[(#[trigger] order@[mm]) as int] >= 1,
            forall|v: int, t: int|
                #![trigger pd[v][t]]
                0 <= v < n && 0 <= t < pd[v].len() ==> pd[v][t] < n && sigma@[pd[v][t] as int]
                    >= 1,
            forall|v: int| 0 <= v < n ==> (#[trigger] delta@[v]).wf(),
            acc_order(zero_scores(n as int), order@, pd, sigma@, order@.len() - m) == Some(delta@),
        decreases m,
    {
        m -= 1;
        let w = order[m];
        let ghost d0 = delta@;
        let ghost steps0 = order@.len() - m - 1;
        proof {
            assert(order@[order@.len() - (steps0 + 1)] == w);
            assert(preds.deep_view()[w as int] == preds@[w as int]@);
        }
        let pw_len = preds[w].len();
        let mut t: usize = 0;
        while t < pw_len
            invariant
                m < order@.len() <= n,
                w == order@[m as int],
                w < n,
                pd == preds.deep_view(),
                preds@.len() == n,
                pw_len == pd[w as int].len(),
                t <= pw_len,
                sigma@.len() == n,
                delta@.len() == n,
                sigma@[w as int] >= 1,
                forall|v: int, tt: int|
                    #![trigger pd[v][tt]]
                    0 <= v < n && 0 <= tt < pd[v].len() ==> pd[v][tt] < n && sigma@[pd[v][tt] as int]
                        >= 1,
                forall|v: int| 0 <= v < n ==> (#[trigger] delta@[v]).wf(),
                acc_preds(d0, pd[w as int], w as int, sigma@, t as int) == Some(delta@),
                acc_order(zero_scores(n as int), order@, pd, sigma@, steps0) == Some(d0),
                steps0 == order@.len() - m - 1,
            decreases pw_len - t,
        {
            let v = preds[w][t];
            proof {
                assert(pd[w as int][t as int] == v);
                assert(v < n && sigma@[v as int] >= 1);
            }
            let one = Ratio::one();
            let dw = delta[w];
            let x = match ratio_add(&dw, &one) {
                Some(x) => x,
                None => {
                    proof {
                        assert(acc_step(delta@, v as int, w as int, sigma@) is None);
                        assert(acc_preds(d0, pd[w as int], w as int, sigma@, t + 1) is None);
                        lemma_acc_preds_none(
                            d0,
                            pd[w as int],
                            w as int,
                            sigma@,
                            t + 1,
                            pw_len as int,
                        );
                        assert(acc_order(zero_scores(n as int), order@, pd, sigma@, steps0 + 1)
                            is None);
                        lemma_acc_order_none(
                            zero_scores(n as int),
                            order@,
                            pd,
                            sigma@,
                            steps0 + 1,
                            order@.len() as int,
                        );
                    }
                    return None;
                },
            };
            let frac = Ratio { num: sigma[v], den: sigma[w] };
            let c = match ratio_mul(&frac, &x) {
                Some(c) => c,
                None => {
                    proof {
                        assert(acc_step(delta@, v as int, w as int, sigma@) is None);
                        assert(acc_preds(d0, pd[w as int], w as int, sigma@, t + 1) is None);
                        lemma_acc_preds_none(
                            d0,
                            pd[w as int],
                            w as int,
                            sigma@,
                            t + 1,
                            pw_len as int,
                        );
                        assert(acc_order(zero_scores(n as int), order@, pd, sigma@, steps0 + 1)
                            is None);
                        lemma_acc_order_none(
                            zero_scores(n as int),
                            order@,
                            pd,
                            sigma@,
                            steps0 + 1,
                            order@.len() as int,
                        );
                    }
                    return None;
                },
            };
            let dv = delta[v];
            let nv = match ratio_add(&dv, &c) {
                Some(nv) => nv,
                None => {
                    proof {
                        assert(acc_step(delta@, v as int, w as int, sigma@) is None);
                        assert(acc_preds(d0, pd[w as int], w as int, sigma@, t + 1) is None);
                        lemma_acc_preds_none(
                            d0,
                            pd[w as int],
                            w as int,
                            sigma@,
                            t + 1,
                            pw_len as int,
                        );
                        assert(acc_order(zero_scores(n as int), order@, pd, sigma@, steps0 + 1)
                            is None);
                        lemma_acc_order_none(
                            zero_scores(n as int),
                            order@,
                            pd,
                            sigma@,
                            steps0 + 1,
                            order@.len() as int,
                        );
                    }
                    return None;
                },
            };
            delta[v] = nv;
            proof {
                assert(acc_step(restored(delta@, v as int, dv), v as int, w as int, sigma@)
                    == Some(delta@)) by {
                    assert(delta@ == restored(delta@, v as int, dv).update(v as int, nv));
                }
            }
            t += 1;
        }
        proof {
            assert(acc_order(zero_scores(n as int), order@, pd, sigma@, steps0 + 1) == Some(
                delta@,
            ));
        }
    }
    proof {
        assert(acc_order(zero_scores(n as int), order@, pd, sigma@, order@.len() as int) == Some(
            delta@,
        ));
    }
    Some(delta)
}

/// The delta vector as it stood before the update at `v`, whose old
/// entry there was `dv`.
spec fn restored(d_after: Seq<Ratio>, v: int, dv: Ratio) -> Seq<Ratio> {
    d_after.update(v, dv)
}

/// The view of an optional score vector.
pub open spec fn opt_view(r: Option<Vec<Ratio>>) -> Option<Seq<Ratio>> {
    match r {
        Option::None => Option::None,
        Option::Some(v) => Option::Some(v@),
    }
}

/// `r` is the dependency vector that the per-source step computes from
/// `s`: the accumulation result of a valid exploration state.
pub open spec fn source_model(
    n: int,
    edges: Seq<(usize, usize, i64)>,
    s: int,
    r: Option<Seq<Ratio>>,
) -> bool {
    exists|dist: Seq<Option<u64>>, sigma: Seq<u64>, preds: Seq<Seq<usize>>, order: Seq<usize>|
        sp_state(n, edges, s, dist, sigma, preds, order) && r == acc_result(n, order, preds, sigma)
}

/// Some edge runs from `a` to `b`.
pub open spec fn has_edge(edges: Seq<(usize, usize, i64)>, a: int, b: int) -> bool {
    exists|k: int| 0 <= k < edges.len() && (#[trigger] edges[k]).0 == a && edges[k].1 == b
}

/// In a graph with a direct edge from the source to every other node,
/// as in the complete digraph the builder produces, the source gets
/// distance zero and every node a finite distance.
pub proof fn lemma_complete_all_reachable(
    n: int,
    edges: Seq<(usize, usize, i64)>,
    s: int,
    dist: Seq<Option<u64>>,
    sigma: Seq<u64>,
    preds: Seq<Seq<usize>>,
    order: Seq<usize>,
)
    requires
        sp_state(n, edges, s, dist, sigma, preds, order),
        forall|t: int| 0 <= t < n && t != s ==> has_edge(edges, s, t),
    ensures
        dist[s] == Some(0u64),
        forall|t: int| 0 <= t < n ==> (#[trigger] dist[t]) is Some,
{
    assert forall|t: int| 0 <= t < n implies (#[trigger] dist[t]) is Some by {
        if t != s {
            assert(has_edge(edges, s, t));
            let k = choose|k: int|
                0 <= k < edges.len() && (#[trigger] edges[k]).0 == s && edges[k].1 == t;
            assert(dist[edges[k].0 as int] is Some);
        }
    }
}

/// Distance zero at the source, and a finite distance over any direct
/// edge from it: in the complete digraph the builder produces, where
/// every other node has such an edge, every node is reached.
pub proof fn lemma_source_reaches(
    n: int,
    edges: Seq<(usize, usize, i64)>,
    s: int,
    dist: Seq<Option<u64>>,
    sigma: Seq<u64>,
    preds: Seq<Seq<usize>>,
    order: Seq<usize>,
    t: int,
    k: int,
)
    requires
        sp_state(n, edges, s, dist, sigma, preds, order),
        0 <= k < edges.len(),
        edges[k].0 == s,
        edges[k].1 == t,
    ensures
        dist[s] == Some(0u64),
        dist[t] is Some,
{
    assert(dist[edges[k].0 as int] is Some);
}

/// The per-source betweenness step: dependency scores accumulated from
/// source `source` over the whole graph, or `None` when a score
/// overflows the exact rational representation.
pub fn calculate_betweenness_centrality(
    graph: &petgraph::graph::DiGraph<String, i64>,
    source: usize,
) -> (r: Option<Vec<Ratio>>)
    requires
        source < graph_nodes(*graph).len(),
        graph_nodes(*graph).len() <= 0xffff_ffff,
        forall|k: int|
            0 <= k < graph_edges(*graph).len() ==> 0 <= (#[trigger] graph_edges(*graph)[k]).2
                <= max_weight(),
    ensures
        r matches Some(v) ==> v@.len() == graph_nodes(*graph).len() && forall|i: int|
            0 <= i < v@.len() ==> (#[trigger] v@[i]).wf(),
        source_model(
            graph_nodes(*graph).len() as int,
            graph_edges(*graph),
            source as int,
            opt_view(r),
        ),
{
    let n = graph_node_count(graph);
    let edges = graph_edge_list(graph);
    proof {
        assert(edges_wf(edges@, n as int));
    }
    let (dist, sigma, preds, order) = shortest_paths(n, &edges, source);
    proof {
        let pd = preds.deep_view();
        assert forall|m: int| 0 <= m < order@.len() implies sigma@[(#[trigger] order@[m]) as int]
            >= 1 by {
            assert(dist@[order@[m] as int] is Some);
        }
        assert forall|v: int, t: int|
            #![trigger pd[v][t]]
            0 <= v < n && 0 <= t < pd[v].len() implies pd[v][t] < n && sigma@[pd[v][t] as int]
            >= 1 by {
            assert(dist@[pd[v][t] as int] is Some);
        }
    }
    let r = accumulate(n, &order, &preds, &sigma);
    proof {
        assert(sp_state(
            n as int,
            edges@,
            source as int,
            dist@,
            sigma@,
            preds.deep_view(),
            order@,
        ) && opt_view(r) == acc_result(n as int, order@, preds.deep_view(), sigma@));
    }
    r
}

/// Every source's dependency vector entry at the source's own index,
/// per-source, as the driver extracts it.
pub open spec fn scores_model(n: int, edges: Seq<(usize, usize, i64)>, sc: Seq<Ratio>) -> bool {
    forall|v: int|
        0 <= v < n ==> (#[trigger] sc[v]).wf() && exists|d: Seq<Ratio>|
            source_model(n, edges, v, Option::Some(d)) && d.len() == n && sc[v] == d[v]
}

/// The dense centrality score vector: for every node `v`, the entry of
/// `v`'s own per-source dependency vector at index `v`; `None` when any
/// per-source step overflows.
pub fn centrality_scores(graph: &petgraph::graph::DiGraph<String, i64>) -> (r: Option<Vec<Ratio>>)
    requires
        graph_nodes(*graph).len() <= 0xffff_ffff,
        forall|k: int|
            0 <= k < graph_edges(*graph).len() ==> 0 <= (#[trigger] graph_edges(*graph)[k]).2
                <= max_weight(),
    ensures
        r matches Some(sc) ==> sc@.len() == graph_nodes(*graph).len() && (forall|i: int|
            0 <= i < sc@.len() ==> (#[trigger] sc@[i]).wf()) && scores_model(
            graph_nodes(*graph).len() as int,
            graph_edges(*graph),
            sc@,
        ),
        r is None ==> exists|v: int|
            0 <= v < graph_nodes(*graph).len() && source_model(
                graph_nodes(*graph).len() as int,
                graph_edges(*graph),
                v,
                Option::None,
            ),
{
    let n = graph_node_count(graph);
    let mut scores: Vec<Ratio> = Vec::new();
    let mut v: usize = 0;
    while v < n
        invariant
            v <= n,
            n == graph_nodes(*graph).len(),
            graph_nodes(*graph).len() <= 0xffff_ffff,
            forall|k: int|
                0 <= k < graph_edges(*graph).len() ==> 0 <= (#[trigger] graph_edges(
                    *graph,
                )[k]).2 <= max_weight(),
            scores@.len() == v,
            forall|i: int| 0 <= i < v ==> (#[trigger] scores@[i]).wf(),
            forall|i: int|
                0 <= i < v ==> (#[trigger] scores@[i]).wf() && exists|d: Seq<Ratio>|
                    source_model(n as int, graph_edges(*graph), i, Option::Some(d)) && d.len() == n
                        && scores@[i] == d[i],
        decreases n - v,
    {
        match calculate_betweenness_centrality(graph, v) {
            Some(res) => {
                let ghost scores0 = scores@;
                let x = res[v];
                scores.push(x);
                proof {
                    assert(source_model(
                        n as int,
                        graph_edges(*graph),
                        v as int,
                        Option::Some(res@),
                    ) && res@.len() == n && scores@[v as int] == res@[v as int]);
                    assert forall|i: int| 0 <= i < v + 1 implies (#[trigger] scores@[i]).wf()
                        && exists|d: Seq<Ratio>|
                        source_model(n as int, graph_edges(*graph), i, Option::Some(d)) && d.len()
                            == n && scores@[i] == d[i] by {
                        if i < v {
                            assert(scores0[i].wf());
                            let d = choose|d: Seq<Ratio>|
                                source_model(n as int, graph_edges(*graph), i, Option::Some(d))
                                    && d.len() == n && scores0[i] == d[i];
                            assert(scores@[i] == scores0[i]);
                            assert(source_model(n as int, graph_edges(*graph), i, Option::Some(d))
                                && d.len() == n && scores@[i] == d[i]);
                        } else {
                            assert(source_model(
                                n as int,
                                graph_edges(*graph),
                                i,
                                Option::Some(res@),
                            ) && res@.len() == n && scores@[i] == res@[i]);
                        }
                    }
                }
            },
            None => {
                proof {
                    assert(source_model(n as int, graph_edges(*graph), v as int, Option::None));
                }
                return None;
            },
        }
        v += 1;
    }
    Some(scores)
}

} // verus!
