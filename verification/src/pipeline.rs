//! The whole ranking pipeline over an already-built graph: centrality
//! scores for every node, paired with the node labels and sorted by
//! score, descending.

use vstd::prelude::*;
use crate::ratio::Ratio;
use crate::digraph::{graph_edge_list, graph_edges, graph_labels, graph_node_count, graph_nodes};
use crate::betweenness_centrality::{centrality_scores, max_weight, scores_model, source_model};
use crate::ranking::{sort_by_score, sorted_desc};
use crate::betweenness_centrality::has_edge;
use crate::stats::TeamStats;
use crate::graph_construction::{
    edges_for_row, edges_upto, first_seen, lemma_name_index_unique, pair_edge, spec_graph_edges,
};

verus! {

/// Ranks the graph's teams by centrality score, descending.
///
/// Returns `None` only when the graph falls outside the supported
/// range (more nodes than the index word holds, or an edge weight
/// outside the non-negative 32-bit span) or when a score overflows the
/// exact rational representation.
pub fn rank_teams(graph: &petgraph::graph::DiGraph<String, i64>) -> (r: Option<
    Vec<(String, Ratio)>,
>)
    ensures
        r matches Some(v) ==> v@.len() == graph_nodes(*graph).len() && sorted_desc(v@) && (forall|
            i: int,
        | 0 <= i < v@.len() ==> (#[trigger] v@[i]).1.wf()) && exists|sc: Seq<Ratio>, pairs: Seq<(String, Ratio)>|
            #![trigger scores_model(graph_nodes(*graph).len() as int, graph_edges(*graph), sc), pairs.to_multiset()]
            scores_model(graph_nodes(*graph).len() as int, graph_edges(*graph), sc)
                && pairs.len() == graph_nodes(*graph).len() && (forall|i: int|
                0 <= i < pairs.len() ==> (#[trigger] pairs[i]).0@ == graph_nodes(*graph)[i]
                    && pairs[i].1 == sc[i]) && v@.to_multiset() == pairs.to_multiset(),
        r is None ==> graph_nodes(*graph).len() > 0xffff_ffff || !(forall|k: int|
            0 <= k < graph_edges(*graph).len() ==> 0 <= (#[trigger] graph_edges(*graph)[k]).2
                <= max_weight()) || exists|v: int|
            0 <= v < graph_nodes(*graph).len() && source_model(
                graph_nodes(*graph).len() as int,
                graph_edges(*graph),
                v,
                Option::None,
            ),
{
    let n = graph_node_count(graph);
    if n > 0xffff_ffff {
        return None;
    }
    let edges = graph_edge_list(graph);
    let mut k: usize = 0;
    while k < edges.len()
        invariant
            k <= edges@.len(),
            edges@ == graph_edges(*graph),
            forall|kk: int| 0 <= kk < k ==> 0 <= (#[trigger] edges@[kk]).2 <= max_weight(),
        decreases edges@.len() - k,
    {
        let (_, _, w) = edges[k];
        if w < 0 || w > 0xffff_ffff {
            return None;
        }
        k += 1;
    }
    let scores = match centrality_scores(graph) {
        Some(s) => s,
        None => {
            return None;
        },
    };
    let labels = graph_labels(graph);
    proof {
        assert(labels@.len() == labels.deep_view().len());
    }
    let mut pairs: Vec<(String, Ratio)> = Vec::new();
    let mut i: usize = 0;
    while i < labels.len()
        invariant
            i <= labels@.len(),
            labels@.len() == n == graph_nodes(*graph).len(),
            labels.deep_view() == graph_nodes(*graph),
            scores@.len() == n,
            forall|ii: int| 0 <= ii < n ==> (#[trigger] scores@[ii]).wf(),
            pairs@.len() == i,
            forall|ii: int|
                0 <= ii < i ==> (#[trigger] pairs@[ii]).0@ == graph_nodes(*graph)[ii]
                    && pairs@[ii].1 == scores@[ii],
        decreases labels@.len() - i,
    {
        let name = labels[i].clone();
        let sc = scores[i];
        pairs.push((name, sc));
        proof {
            assert(labels.deep_view()[i as int] == labels@[i as int]@);
        }
        i += 1;
    }
    let ghost pairs_seq = pairs@;
    let ghost sc_seq = scores@;
    proof {
        assert forall|ii: int| 0 <= ii < pairs@.len() implies (#[trigger] pairs@[ii]).1.wf() by {
            assert(pairs@[ii].1 == scores@[ii]);
        }
    }
    let sorted = sort_by_score(pairs);
    proof {
        assert(scores_model(graph_nodes(*graph).len() as int, graph_edges(*graph), sc_seq)
            && pairs_seq.len() == graph_nodes(*graph).len() && (forall|i: int|
            0 <= i < pairs_seq.len() ==> (#[trigger] pairs_seq[i]).0@ == graph_nodes(*graph)[i]
                && pairs_seq[i].1 == sc_seq[i]) && sorted@.to_multiset() == pairs_seq.to_multiset());
    }
    Some(sorted)
}

proof fn lemma_first_seen_identity(rows: Seq<TeamStats>)
    requires
        forall|a: int, b: int| 0 <= a < b < rows.len() ==> rows[a].team@ != rows[b].team@,
    ensures
        first_seen(rows).len() == rows.len(),
        forall|i: int| 0 <= i < rows.len() ==> first_seen(rows)[i] == (#[trigger] rows[i]).team@,
    decreases rows.len(),
{
    if rows.len() == 0 {
    } else {
        let prev_rows = rows.drop_last();
        assert forall|a: int, b: int|
            0 <= a < b < prev_rows.len() implies prev_rows[a].team@ != prev_rows[b].team@ by {
            assert(prev_rows[a] == rows[a] && prev_rows[b] == rows[b]);
        }
        lemma_first_seen_identity(prev_rows);
        let prev = first_seen(prev_rows);
        if prev.contains(rows.last().team@) {
            let m = choose|m: int| 0 <= m < prev.len() && prev[m] == rows.last().team@;
            assert(prev[m] == prev_rows[m].team@);
            assert(rows[m].team@ == rows[rows.len() - 1].team@);
            assert(false);
        }
        assert forall|i: int|
            0 <= i < rows.len() implies first_seen(rows)[i] == (#[trigger] rows[i]).team@ by {
            if i < rows.len() - 1 {
                assert(first_seen(rows)[i] == prev[i]);
                assert(prev_rows[i] == rows[i]);
            } else {
                assert(first_seen(rows)[i] == rows.last().team@);
            }
        }
    }
}

proof fn lemma_edges_for_row_has(
    rows: Seq<TeamStats>,
    nodes: Seq<Seq<char>>,
    i: int,
    j_end: int,
    j: int,
)
    requires
        0 <= i < rows.len(),
        0 <= j < j_end <= rows.len(),
        rows[i].team@ != rows[j].team@,
    ensures
        exists|k: int|
            0 <= k < edges_for_row(rows, nodes, i, j_end).len() && #[trigger] edges_for_row(
                rows,
                nodes,
                i,
                j_end,
            )[k] == pair_edge(rows, nodes, i, j),
    decreases j_end,
{
    let cur = edges_for_row(rows, nodes, i, j_end);
    if j == j_end - 1 {
        assert(cur[cur.len() - 1] == pair_edge(rows, nodes, i, j));
    } else {
        lemma_edges_for_row_has(rows, nodes, i, j_end - 1, j);
        let prev = edges_for_row(rows, nodes, i, j_end - 1);
        let k = choose|k: int|
            0 <= k < prev.len() && #[trigger] prev[k] == pair_edge(rows, nodes, i, j);
        assert(cur[k] == pair_edge(rows, nodes, i, j));
    }
}

proof fn lemma_edges_upto_has(
    rows: Seq<TeamStats>,
    nodes: Seq<Seq<char>>,
    i_end: int,
    i: int,
    j: int,
)
    requires
        0 <= i < i_end <= rows.len(),
        0 <= j < rows.len(),
        rows[i].team@ != rows[j].team@,
    ensures
        exists|k: int|
            0 <= k < edges_upto(rows, nodes, i_end).len() && #[trigger] edges_upto(
                rows,
                nodes,
                i_end,
            )[k] == pair_edge(rows, nodes, i, j),
    decreases i_end,
{
    let cur = edges_upto(rows, nodes, i_end);
    let prev = edges_upto(rows, nodes, i_end - 1);
    if i == i_end - 1 {
        lemma_edges_for_row_has(rows, nodes, i, rows.len() as int, j);
        let tail = edges_for_row(rows, nodes, i, rows.len() as int);
        let k = choose|k: int|
            0 <= k < tail.len() && #[trigger] tail[k] == pair_edge(rows, nodes, i, j);
        assert(cur[prev.len() + k] == pair_edge(rows, nodes, i, j));
    } else {
        lemma_edges_upto_has(rows, nodes, i_end - 1, i, j);
        let k = choose|k: int|
            0 <= k < prev.len() && #[trigger] prev[k] == pair_edge(rows, nodes, i, j);
        assert(cur[k] == pair_edge(rows, nodes, i, j));
    }
}

/// With pairwise-distinct team names the built graph carries a direct
/// edge between every ordered pair of distinct nodes, so every
/// per-source exploration reaches every node.
pub proof fn lemma_complete_digraph_has_all_edges(rows: Seq<TeamStats>)
    requires
        rows.len() <= usize::MAX,
        forall|a: int, b: int| 0 <= a < b < rows.len() ==> rows[a].team@ != rows[b].team@,
    ensures
        forall|a: int, b: int|
            0 <= a < rows.len() && 0 <= b < rows.len() && a != b ==> has_edge(
                spec_graph_edges(rows),
                a,
                b,
            ),
{
    let nodes = first_seen(rows);
    lemma_first_seen_identity(rows);
    assert forall|a: int, b: int|
        0 <= a < rows.len() && 0 <= b < rows.len() && a != b implies has_edge(
        spec_graph_edges(rows),
        a,
        b,
    ) by {
        if a < b {
            assert(rows[a].team@ != rows[b].team@);
        } else {
            assert(rows[b].team@ != rows[a].team@);
        }
        assert forall|m: int| 0 <= m < a implies nodes[m] != rows[a].team@ by {
            if m < a {
                assert(rows[m].team@ != rows[a].team@);
            }
        }
        lemma_name_index_unique(nodes, rows[a].team@, a);
        assert forall|m: int| 0 <= m < b implies nodes[m] != rows[b].team@ by {
            if m < b {
                assert(rows[m].team@ != rows[b].team@);
            }
        }
        lemma_name_index_unique(nodes, rows[b].team@, b);
        lemma_edges_upto_has(rows, nodes, rows.len() as int, a, b);
        let k = choose|k: int|
            0 <= k < edges_upto(rows, nodes, rows.len() as int).len() && #[trigger] edges_upto(
                rows,
                nodes,
                rows.len() as int,
            )[k] == pair_edge(rows, nodes, a, b);
        assert(spec_graph_edges(rows)[k] == pair_edge(rows, nodes, a, b));
        assert(0 <= a <= usize::MAX && 0 <= b <= usize::MAX);
        assert(pair_edge(rows, nodes, a, b).0 == a as usize);
        assert(pair_edge(rows, nodes, a, b).1 == b as usize);
        assert(spec_graph_edges(rows)[k].0 == a && spec_graph_edges(rows)[k].1 == b);
    }
}

} // verus!
