//! Builds the weighted directed graph from parsed statistics rows.
//!
//! Nodes are the distinct team names in first-seen order; for every
//! ordered pair of rows with different names one directed edge is added,
//! weighted by the absolute difference of the rows' `wins` values. The
//! double loop runs over rows, not deduplicated nodes, so duplicate team
//! names yield parallel edges.

use vstd::prelude::*;
use crate::stats::TeamStats;
use crate::stats::spec_edge_weight;
use crate::digraph::{graph_add_edge, graph_add_node, graph_edges, graph_new, graph_nodes};

verus! {

/// The distinct team names of `rows`, in first-seen order: the node
/// labels of the constructed graph.
pub open spec fn first_seen(rows: Seq<TeamStats>) -> Seq<Seq<char>>
    decreases rows.len(),
{
    if rows.len() == 0 {
        Seq::empty()
    } else {
        let prev = first_seen(rows.drop_last());
        if prev.contains(rows.last().team@) {
            prev
        } else {
            prev.push(rows.last().team@)
        }
    }
}

/// The position of the first occurrence of `name` in `nodes`.
pub open spec fn name_index(nodes: Seq<Seq<char>>, name: Seq<char>) -> int
    decreases nodes.len(),
{
    if nodes.len() == 0 {
        0
    } else if nodes[0] == name {
        0
    } else {
        1 + name_index(nodes.skip(1), name)
    }
}

/// The edge generated by the ordered row pair `(i, j)`: from row `i`'s
/// node to row `j`'s node, weighted by their wins difference.
pub open spec fn pair_edge(rows: Seq<TeamStats>, nodes: Seq<Seq<char>>, i: int, j: int) -> (
    usize,
    usize,
    i64,
) {
    (
        name_index(nodes, rows[i].team@) as usize,
        name_index(nodes, rows[j].team@) as usize,
        spec_edge_weight(rows[i], rows[j]) as i64,
    )
}

/// The edges generated by row `i` paired with rows `0 .. j_end`, in
/// order, skipping partners that share row `i`'s name.
pub open spec fn edges_for_row(
    rows: Seq<TeamStats>,
    nodes: Seq<Seq<char>>,
    i: int,
    j_end: int,
) -> Seq<(usize, usize, i64)>
    decreases j_end,
{
    if j_end <= 0 {
        Seq::empty()
    } else {
        let prev = edges_for_row(rows, nodes, i, j_end - 1);
        if rows[i].team@ == rows[j_end - 1].team@ {
            prev
        } else {
            prev.push(pair_edge(rows, nodes, i, j_end - 1))
        }
    }
}

/// The edges generated by rows `0 .. i_end`, each paired with every row.
pub open spec fn edges_upto(rows: Seq<TeamStats>, nodes: Seq<Seq<char>>, i_end: int) -> Seq<
    (usize, usize, i64),
>
    decreases i_end,
{
    if i_end <= 0 {
        Seq::empty()
    } else {
        edges_upto(rows, nodes, i_end - 1) + edges_for_row(
            rows,
            nodes,
            i_end - 1,
            rows.len() as int,
        )
    }
}

/// All edges of the graph built from `rows`.
pub open spec fn spec_graph_edges(rows: Seq<TeamStats>) -> Seq<(usize, usize, i64)> {
    edges_upto(rows, first_seen(rows), rows.len() as int)
}

/// `name_index` is pinned by the first-occurrence properties.
pub proof fn lemma_name_index_unique(nodes: Seq<Seq<char>>, name: Seq<char>, k: int)
    requires
        0 <= k < nodes.len(),
        nodes[k] == name,
        forall|m: int| 0 <= m < k ==> nodes[m] != name,
    ensures
        name_index(nodes, name) == k,
    decreases nodes.len(),
{
    if k == 0 {
    } else {
        assert(nodes[0] != name);
        assert(nodes.skip(1)[k - 1] == nodes[k]);
        assert forall|m: int| 0 <= m < k - 1 implies nodes.skip(1)[m] != name by {
            assert(nodes.skip(1)[m] == nodes[m + 1]);
        }
        lemma_name_index_unique(nodes.skip(1), name, k - 1);
    }
}

/// Every row's name appears among the node labels.
pub proof fn lemma_first_seen_contains(rows: Seq<TeamStats>, i: int)
    requires
        0 <= i < rows.len(),
    ensures
        first_seen(rows).contains(rows[i].team@),
    decreases rows.len(),
{
    let prev = first_seen(rows.drop_last());
    if i == rows.len() - 1 {
        if prev.contains(rows.last().team@) {
        } else {
            assert(first_seen(rows).last() == rows[i].team@);
        }
    } else {
        lemma_first_seen_contains(rows.drop_last(), i);
        assert(rows.drop_last()[i] == rows[i]);
        let m = choose|m: int| 0 <= m < prev.len() && prev[m] == rows[i].team@;
        if prev.contains(rows.last().team@) {
        } else {
            assert(first_seen(rows)[m] == prev[m]);
        }
    }
}

/// The node labels are distinct and are exactly the names of the rows.
pub proof fn lemma_first_seen_distinct(rows: Seq<TeamStats>)
    ensures
        first_seen(rows).no_duplicates(),
        forall|x: Seq<char>|
            first_seen(rows).contains(x) <==> exists|i: int|
                0 <= i < rows.len() && rows[i].team@ == x,
    decreases rows.len(),
{
    if rows.len() == 0 {
    } else {
        lemma_first_seen_distinct(rows.drop_last());
        let prev = first_seen(rows.drop_last());
        let cur = first_seen(rows);
        assert forall|x: Seq<char>|
            cur.contains(x) <==> exists|i: int|
                0 <= i < rows.len() && rows[i].team@ == x by {
            if cur.contains(x) {
                let m = choose|m: int| 0 <= m < cur.len() && cur[m] == x;
                if m < prev.len() {
                    assert(prev.contains(x));
                    let i = choose|i: int|
                        0 <= i < rows.drop_last().len() && rows.drop_last()[i].team@ == x;
                    assert(rows[i].team@ == x);
                } else {
                    assert(x == rows.last().team@);
                    assert(rows[rows.len() - 1].team@ == x);
                }
            }
            if exists|i: int| 0 <= i < rows.len() && rows[i].team@ == x {
                let i = choose|i: int| 0 <= i < rows.len() && rows[i].team@ == x;
                if i < rows.len() - 1 {
                    assert(rows.drop_last()[i].team@ == x);
                    assert(prev.contains(x));
                    let m = choose|m: int| 0 <= m < prev.len() && prev[m] == x;
                    assert(cur[m] == x);
                    assert(cur.contains(x));
                } else {
                    if prev.contains(rows.last().team@) {
                        let m = choose|m: int| 0 <= m < prev.len() && prev[m] == x;
                        assert(cur[m] == x);
                        assert(cur.contains(x));
                    } else {
                        assert(cur.last() == x);
                        assert(cur.contains(x));
                    }
                }
            }
        }
        if !prev.contains(rows.last().team@) {
            assert forall|m: int, n: int| 0 <= m < n < cur.len() implies cur[m] != cur[n] by {
                if n < prev.len() {
                } else {
                    assert(cur[n] == rows.last().team@);
                    assert(cur[m] == prev[m]);
                    assert(prev.contains(prev[m]));
                }
            }
        }
    }
}

/// Every generated edge references valid node indices and carries a
/// non-negative weight bounded by the wins range.
pub proof fn lemma_edges_wf(rows: Seq<TeamStats>)
    ensures
        forall|k: int|
            0 <= k < spec_graph_edges(rows).len() ==> {
                let e = #[trigger] spec_graph_edges(rows)[k];
                e.0 < first_seen(rows).len() && e.1 < first_seen(rows).len() && 0 <= e.2
                    <= 0xffff_ffffi64
            },
{
    assert forall|k: int| 0 <= k < spec_graph_edges(rows).len() implies {
        let e = #[trigger] spec_graph_edges(rows)[k];
        e.0 < first_seen(rows).len() && e.1 < first_seen(rows).len() && 0 <= e.2
            <= 0xffff_ffffi64
    } by {
        lemma_edges_elems(rows, k);
        let nodes = first_seen(rows);
        let (i, j) = choose|i: int, j: int|
            0 <= i < rows.len() && 0 <= j < rows.len() && rows[i].team@ != rows[j].team@
                && spec_graph_edges(rows)[k] == #[trigger] pair_edge(rows, nodes, i, j);
        lemma_first_seen_contains(rows, i);
        lemma_first_seen_contains(rows, j);
        lemma_name_index_in_range(nodes, rows[i].team@);
        lemma_name_index_in_range(nodes, rows[j].team@);
    }
}

/// For a name that occurs among the labels, its index is in range.
pub proof fn lemma_name_index_in_range(nodes: Seq<Seq<char>>, name: Seq<char>)
    requires
        nodes.contains(name),
    ensures
        0 <= name_index(nodes, name) < nodes.len(),
        nodes[name_index(nodes, name)] == name,
    decreases nodes.len(),
{
    if nodes.len() == 0 {
    } else if nodes[0] == name {
    } else {
        let m = choose|m: int| 0 <= m < nodes.len() && nodes[m] == name;
        assert(nodes.skip(1)[m - 1] == nodes[m]);
        assert(nodes.skip(1).contains(name));
        lemma_name_index_in_range(nodes.skip(1), name);
        assert(nodes[name_index(nodes, name)] == nodes.skip(1)[name_index(nodes.skip(1), name)]);
    }
}

/// Every edge of the built graph comes from an ordered pair of rows with
/// different names: it runs from the first row's node to the second's,
/// and its weight is the absolute difference of their `wins` values.
pub proof fn lemma_edges_elems(rows: Seq<TeamStats>, k: int)
    requires
        0 <= k < spec_graph_edges(rows).len(),
    ensures
        exists|i: int, j: int|
            0 <= i < rows.len() && 0 <= j < rows.len() && rows[i].team@ != rows[j].team@
                && spec_graph_edges(rows)[k] == #[trigger] pair_edge(rows, first_seen(rows), i, j),
{
    lemma_edges_upto_elems(rows, first_seen(rows), rows.len() as int);
    assert(spec_graph_edges(rows)[k] == edges_upto(rows, first_seen(rows), rows.len() as int)[k]);
    let (i, j) = choose|i: int, j: int|
        0 <= i < rows.len() && 0 <= j < rows.len() && rows[i].team@ != rows[j].team@
            && #[trigger] edges_upto(rows, first_seen(rows), rows.len() as int)[k]
            == #[trigger] pair_edge(rows, first_seen(rows), i, j);
    assert(0 <= i < rows.len() && 0 <= j < rows.len() && rows[i].team@ != rows[j].team@
        && spec_graph_edges(rows)[k] == pair_edge(rows, first_seen(rows), i, j));
}

proof fn lemma_edges_for_row_elems(rows: Seq<TeamStats>, nodes: Seq<Seq<char>>, i: int, j_end: int)
    requires
        j_end <= rows.len(),
    ensures
        forall|k: int|
            0 <= k < edges_for_row(rows, nodes, i, j_end).len() ==> exists|j: int|
                0 <= j < j_end && rows[i].team@ != rows[j].team@ && #[trigger] edges_for_row(
                    rows,
                    nodes,
                    i,
                    j_end,
                )[k] == #[trigger] pair_edge(rows, nodes, i, j),
    decreases j_end,
{
    if j_end <= 0 {
    } else {
        lemma_edges_for_row_elems(rows, nodes, i, j_end - 1);
        let prev = edges_for_row(rows, nodes, i, j_end - 1);
        let cur = edges_for_row(rows, nodes, i, j_end);
        assert forall|k: int| 0 <= k < cur.len() implies exists|j: int|
            0 <= j < j_end && rows[i].team@ != rows[j].team@ && #[trigger] edges_for_row(
                rows,
                nodes,
                i,
                j_end,
            )[k] == #[trigger] pair_edge(rows, nodes, i, j) by {
            if k < prev.len() {
                let j = choose|j: int|
                    0 <= j < j_end - 1 && rows[i].team@ != rows[j].team@ && prev[k]
                        == #[trigger] pair_edge(rows, nodes, i, j);
                assert(cur[k] == prev[k]);
                assert(rows[i].team@ != rows[j].team@ && cur[k] == pair_edge(rows, nodes, i, j));
            } else {
                assert(cur[k] == pair_edge(rows, nodes, i, j_end - 1));
                assert(rows[i].team@ != rows[j_end - 1].team@ && cur[k] == pair_edge(
                    rows,
                    nodes,
                    i,
                    j_end - 1,
                ));
            }
        }
    }
}

proof fn lemma_edges_upto_elems(rows: Seq<TeamStats>, nodes: Seq<Seq<char>>, i_end: int)
    requires
        i_end <= rows.len(),
    ensures
        forall|k: int|
            0 <= k < edges_upto(rows, nodes, i_end).len() ==> exists|i: int, j: int|
                0 <= i < i_end && 0 <= j < rows.len() && rows[i].team@ != rows[j].team@
                    && #[trigger] edges_upto(rows, nodes, i_end)[k] == #[trigger] pair_edge(
                    rows,
                    nodes,
                    i,
                    j,
                ),
    decreases i_end,
{
    if i_end <= 0 {
    } else {
        lemma_edges_upto_elems(rows, nodes, i_end - 1);
        lemma_edges_for_row_elems(rows, nodes, i_end - 1, rows.len() as int);
        let prev = edges_upto(rows, nodes, i_end - 1);
        let tail = edges_for_row(rows, nodes, i_end - 1, rows.len() as int);
        let cur = edges_upto(rows, nodes, i_end);
        assert forall|k: int| 0 <= k < cur.len() implies exists|i: int, j: int|
            0 <= i < i_end && 0 <= j < rows.len() && rows[i].team@ != rows[j].team@
                && #[trigger] edges_upto(rows, nodes, i_end)[k] == #[trigger] pair_edge(
                rows,
                nodes,
                i,
                j,
            ) by {
            if k < prev.len() {
                let (i, j) = choose|i: int, j: int|
                    0 <= i < i_end - 1 && 0 <= j < rows.len() && rows[i].team@ != rows[j].team@
                        && prev[k] == #[trigger] pair_edge(rows, nodes, i, j);
                assert(cur[k] == prev[k]);
                assert(0 <= i < i_end && 0 <= j < rows.len() && rows[i].team@ != rows[j].team@
                    && cur[k] == pair_edge(rows, nodes, i, j));
            } else {
                let j = choose|j: int|
                    0 <= j < rows.len() && rows[i_end - 1].team@ != rows[j].team@ && tail[k
                        - prev.len()] == #[trigger] pair_edge(rows, nodes, i_end - 1, j);
                assert(cur[k] == tail[k - prev.len()]);
                assert(0 <= i_end - 1 < i_end && rows[i_end - 1].team@ != rows[j].team@ && cur[k]
                    == pair_edge(rows, nodes, i_end - 1, j));
            }
        }
    }
}

/// Finds the index of the first label equal to `name`, if any.
pub fn find_index(labels: &Vec<String>, name: &String) -> (r: Option<usize>)
    ensures
        match r {
            Some(k) => 0 <= k < labels.len() && labels.deep_view()[k as int] == name@ && (forall|
                m: int,
            |
                0 <= m < k ==> labels.deep_view()[m] != name@),
            None => forall|m: int| 0 <= m < labels.len() ==> labels.deep_view()[m] != name@,
        },
{
    let mut i: usize = 0;
    while i < labels.len()
        invariant
            0 <= i <= labels.len(),
            forall|m: int| 0 <= m < i ==> labels.deep_view()[m] != name@,
        decreases labels.len() - i,
    {
        if labels[i] == *name {
            assert(labels.deep_view()[i as int] == name@);
            return Some(i);
        }
        assert(labels.deep_view()[i as int] == labels@[i as int]@);
        i += 1;
    }
    None
}

/// Builds the graph from the parsed rows: one node per distinct name in
/// first-seen order, and for every ordered pair of rows with different
/// names one directed edge weighted by the rows' wins difference.
pub fn construct_graph(rows: &Vec<TeamStats>) -> (g: petgraph::graph::DiGraph<String, i64>)
    requires
        rows@.len() <= 0xffff,
    ensures
        graph_nodes(g) == first_seen(rows@),
        graph_edges(g) == spec_graph_edges(rows@),
{
    let mut g = graph_new();
    let mut labels: Vec<String> = Vec::new();
    let n_rows = rows.len();

    let mut i: usize = 0;
    while i < n_rows
        invariant
            n_rows == rows@.len() <= 0xffff,
            i <= n_rows,
            labels.deep_view() == first_seen(rows@.take(i as int)),
            labels@.len() <= i,
            graph_nodes(g) == labels.deep_view(),
            graph_edges(g) == Seq::<(usize, usize, i64)>::empty(),
        decreases n_rows - i,
    {
        proof {
            assert(rows@.take(i + 1).drop_last() =~= rows@.take(i as int));
            assert(rows@.take(i + 1).last() == rows@[i as int]);
        }
        match find_index(&labels, &rows[i].team) {
            Some(_) => {
                proof {
                    let prev = first_seen(rows@.take(i as int));
                    assert(prev.contains(rows@[i as int].team@));
                }
            },
            None => {
                proof {
                    let prev = first_seen(rows@.take(i as int));
                    if prev.contains(rows@[i as int].team@) {
                        let m = choose|m: int|
                            0 <= m < prev.len() && prev[m] == rows@[i as int].team@;
                        assert(labels.deep_view()[m] == rows@[i as int].team@);
                        assert(false);
                    }
                }
                graph_add_node(&mut g, rows[i].team.clone());
                labels.push(rows[i].team.clone());
                proof {
                    assert(labels.deep_view() =~= first_seen(rows@.take(i + 1)));
                }
            },
        }
        i += 1;
    }
    proof {
        assert(rows@.take(n_rows as int) =~= rows@);
    }

    let ghost nseq = first_seen(rows@);
    let mut i: usize = 0;
    while i < n_rows
        invariant
            n_rows == rows@.len() <= 0xffff,
            i <= n_rows,
            labels.deep_view() == nseq,
            nseq == first_seen(rows@),
            labels@.len() <= n_rows,
            graph_nodes(g) == nseq,
            graph_edges(g) == edges_upto(rows@, nseq, i as int),
            graph_edges(g).len() <= i * n_rows,
        decreases n_rows - i,
    {
        let mut j: usize = 0;
        while j < n_rows
            invariant
                n_rows == rows@.len() <= 0xffff,
                i < n_rows,
                j <= n_rows,
                labels.deep_view() == nseq,
                nseq == first_seen(rows@),
                labels@.len() <= n_rows,
                graph_nodes(g) == nseq,
                graph_edges(g) == edges_upto(rows@, nseq, i as int) + edges_for_row(
                    rows@,
                    nseq,
                    i as int,
                    j as int,
                ),
                graph_edges(g).len() <= i * n_rows + j,
            decreases n_rows - j,
        {
            if !(rows[i].team == rows[j].team) {
                proof {
                    lemma_first_seen_contains(rows@, i as int);
                    lemma_first_seen_contains(rows@, j as int);
                }
                let n1 = match find_index(&labels, &rows[i].team) {
                    Some(k) => k,
                    None => {
                        proof {
                            let m = choose|m: int|
                                0 <= m < nseq.len() && nseq[m] == rows@[i as int].team@;
                            assert(labels.deep_view()[m] == rows@[i as int].team@);
                        }
                        assert(false);
                        0
                    },
                };
                let n2 = match find_index(&labels, &rows[j].team) {
                    Some(k) => k,
                    None => {
                        proof {
                            let m = choose|m: int|
                                0 <= m < nseq.len() && nseq[m] == rows@[j as int].team@;
                            assert(labels.deep_view()[m] == rows@[j as int].team@);
                        }
                        assert(false);
                        0
                    },
                };
                proof {
                    lemma_name_index_unique(nseq, rows@[i as int].team@, n1 as int);
                    lemma_name_index_unique(nseq, rows@[j as int].team@, n2 as int);
                    assert(i * n_rows + j < n_rows * n_rows) by (nonlinear_arith)
                        requires
                            i < n_rows,
                            j < n_rows,
                    ;
                    assert(n_rows * n_rows <= 0xffff * 0xffff) by (nonlinear_arith)
                        requires
                            n_rows <= 0xffff,
                    ;
                }
                let w = rows[i].calculate_edge_weight(&rows[j]);
                graph_add_edge(&mut g, n1, n2, w);
                proof {
                    assert(edges_for_row(rows@, nseq, i as int, j + 1)
                        == edges_for_row(rows@, nseq, i as int, j as int).push(
                        pair_edge(rows@, nseq, i as int, j as int),
                    ));
                    assert(pair_edge(rows@, nseq, i as int, j as int) == (n1, n2, w));
                }
            } else {
                proof {
                    assert(rows@[i as int].team@ == rows@[j as int].team@);
                    assert(edges_for_row(rows@, nseq, i as int, j + 1) == edges_for_row(
                        rows@,
                        nseq,
                        i as int,
                        j as int,
                    ));
                }
            }
            j += 1;
        }
        proof {
            assert(edges_upto(rows@, nseq, i + 1) == edges_upto(rows@, nseq, i as int)
                + edges_for_row(rows@, nseq, i as int, n_rows as int));
            assert((i + 1) * n_rows == i * n_rows + n_rows) by (nonlinear_arith);
        }
        i += 1;
    }
    g
}

/// With pairwise-distinct team names the graph is a complete digraph:
/// one node per row and exactly `n * (n - 1)` edges, none of them a
/// self-loop.
pub proof fn lemma_complete_digraph(rows: Seq<TeamStats>)
    requires
        forall|a: int, b: int| 0 <= a < b < rows.len() ==> rows[a].team@ != rows[b].team@,
    ensures
        first_seen(rows).len() == rows.len(),
        spec_graph_edges(rows).len() == rows.len() * (rows.len() - 1),
{
    lemma_first_seen_len(rows);
    lemma_edges_upto_count(rows, first_seen(rows), rows.len() as int);
}

proof fn lemma_first_seen_len(rows: Seq<TeamStats>)
    requires
        forall|a: int, b: int| 0 <= a < b < rows.len() ==> rows[a].team@ != rows[b].team@,
    ensures
        first_seen(rows).len() == rows.len(),
    decreases rows.len(),
{
    if rows.len() == 0 {
    } else {
        lemma_first_seen_len(rows.drop_last());
        let prev = first_seen(rows.drop_last());
        if prev.contains(rows.last().team@) {
            lemma_first_seen_distinct(rows.drop_last());
            let i = choose|i: int|
                0 <= i < rows.drop_last().len() && rows.drop_last()[i].team@ == rows.last().team@;
            assert(rows[i].team@ == rows[rows.len() - 1].team@);
            assert(false);
        }
    }
}

proof fn lemma_edges_for_row_count(rows: Seq<TeamStats>, nodes: Seq<Seq<char>>, i: int, j_end: int)
    requires
        0 <= i < rows.len(),
        0 <= j_end <= rows.len(),
        forall|a: int, b: int| 0 <= a < b < rows.len() ==> rows[a].team@ != rows[b].team@,
    ensures
        edges_for_row(rows, nodes, i, j_end).len() == if i < j_end {
            j_end - 1
        } else {
            j_end
        },
    decreases j_end,
{
    if j_end <= 0 {
    } else {
        lemma_edges_for_row_count(rows, nodes, i, j_end - 1);
        if i != j_end - 1 {
            if i < j_end - 1 {
                assert(rows[i].team@ != rows[j_end - 1].team@);
            } else {
                assert(rows[j_end - 1].team@ != rows[i].team@);
            }
        }
    }
}

proof fn lemma_edges_upto_count(rows: Seq<TeamStats>, nodes: Seq<Seq<char>>, i_end: int)
    requires
        0 <= i_end <= rows.len(),
        forall|a: int, b: int| 0 <= a < b < rows.len() ==> rows[a].team@ != rows[b].team@,
    ensures
        edges_upto(rows, nodes, i_end).len() == i_end * (rows.len() - 1),
    decreases i_end,
{
    if i_end <= 0 {
        assert(i_end == 0);
        assert(edges_upto(rows, nodes, i_end).len() == 0);
        assert(i_end * (rows.len() - 1) == 0);
    } else {
        lemma_edges_upto_count(rows, nodes, i_end - 1);
        lemma_edges_for_row_count(rows, nodes, i_end - 1, rows.len() as int);
        assert(edges_upto(rows, nodes, i_end) == edges_upto(rows, nodes, i_end - 1)
            + edges_for_row(rows, nodes, i_end - 1, rows.len() as int));
        assert(edges_upto(rows, nodes, i_end).len() == (i_end - 1) * (rows.len() - 1) + (rows.len()
            - 1));
        assert((i_end - 1) * (rows.len() - 1) + (rows.len() - 1) == i_end * (rows.len() - 1))
            by (nonlinear_arith);
        assert(edges_upto(rows, nodes, i_end).len() == i_end * (rows.len() - 1));
    }
}

} // verus!
