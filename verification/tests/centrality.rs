use team_centrality::betweenness_centrality::{
    calculate_betweenness_centrality, centrality_scores, shortest_paths,
};
use team_centrality::graph_construction::construct_graph;
use team_centrality::pipeline::rank_teams;
use team_centrality::ratio::{ratio_add, ratio_ge, ratio_mul, Ratio};
use team_centrality::ranking::sort_by_score;
use team_centrality::stats::TeamStats;

fn row(team: &str, wins: i32, losses: i32, goals: i32, season: &str) -> TeamStats {
    TeamStats {
        team: team.to_string(),
        wins,
        losses,
        goals,
        season: season.to_string(),
    }
}

fn reference_rows() -> Vec<TeamStats> {
    vec![
        row("TeamA", 10, 5, 30, "2022"),
        row("TeamB", 8, 7, 25, "2022"),
        row("TeamC", 12, 3, 35, "2022"),
        row("TeamD", 7, 8, 20, "2022"),
    ]
}

#[test]
fn test_graph_construction_and_centrality() {
    let graph = construct_graph(&reference_rows());

    assert_eq!(graph.node_count(), 4, "Node count mismatch");
    assert_eq!(graph.edge_count(), 12, "Edge count mismatch");

    let teams = graph
        .node_indices()
        .map(|node| graph.node_weight(node).unwrap().clone())
        .collect::<Vec<_>>();
    let count = graph.node_count();

    let mut centrality_list: Vec<(String, f64)> = Vec::with_capacity(count);
    for v_index in 0..count {
        let per_source = calculate_betweenness_centrality(&graph, v_index).unwrap();
        let r = per_source[v_index];
        let centrality = r.num as f64 / r.den as f64;
        centrality_list.push((teams[v_index].clone(), centrality));
    }

    centrality_list.sort_by(|a, b| b.1.partial_cmp(&a.1).unwrap());

    for (i, (_, score)) in centrality_list.iter().enumerate() {
        assert!(*score >= 0.0, "Centrality score is negative for index {}", i);
        if i > 0 {
            assert!(
                centrality_list[i - 1].1 >= *score,
                "Centrality scores are not sorted correctly at index {}",
                i
            );
        }
    }

    assert_eq!(
        centrality_list.len(),
        4,
        "Centrality scores length mismatch with node count"
    );
}

#[test]
fn reference_dataset_edge_weights() {
    let graph = construct_graph(&reference_rows());
    // row-major edge order over ordered row pairs with distinct names
    let expected: Vec<(usize, usize, i64)> = vec![
        (0, 1, 2),
        (0, 2, 2),
        (0, 3, 3),
        (1, 0, 2),
        (1, 2, 4),
        (1, 3, 1),
        (2, 0, 2),
        (2, 1, 4),
        (2, 3, 5),
        (3, 0, 3),
        (3, 1, 1),
        (3, 2, 5),
    ];
    let actual: Vec<(usize, usize, i64)> = graph
        .edge_indices()
        .map(|e| {
            let (s, t) = graph.edge_endpoints(e).unwrap();
            (s.index(), t.index(), *graph.edge_weight(e).unwrap())
        })
        .collect();
    assert_eq!(actual, expected);
    for (_, _, w) in actual {
        assert!(w >= 0);
    }
}

#[test]
fn node_labels_first_seen_order() {
    let graph = construct_graph(&reference_rows());
    let labels: Vec<String> = graph
        .node_indices()
        .map(|i| graph.node_weight(i).unwrap().clone())
        .collect();
    assert_eq!(labels, vec!["TeamA", "TeamB", "TeamC", "TeamD"]);
}

#[test]
fn duplicate_names_keep_node_count_but_add_edges() {
    let mut rows = reference_rows();
    rows.push(row("TeamA", 9, 6, 28, "2021"));
    let graph = construct_graph(&rows);
    // node count stays at the number of distinct names
    assert_eq!(graph.node_count(), 4);
    // edges are generated per row pair, so the count exceeds n * (n - 1)
    assert_eq!(graph.edge_count(), 18);
    assert!(graph.edge_count() > 4 * 3);
}

#[test]
fn empty_and_single_row_graphs() {
    let graph = construct_graph(&Vec::new());
    assert_eq!(graph.node_count(), 0);
    assert_eq!(graph.edge_count(), 0);

    let graph = construct_graph(&vec![row("Only", 1, 2, 3, "2020")]);
    assert_eq!(graph.node_count(), 1);
    assert_eq!(graph.edge_count(), 0);
}

#[test]
fn shortest_paths_distances_and_counts() {
    // 0 -> 1 (2), 0 -> 2 (5), 0 -> 2 (4), 1 -> 2 (2): two shortest
    // paths of weight 4 from 0 to 2
    let edges: Vec<(usize, usize, i64)> = vec![(0, 1, 2), (0, 2, 5), (0, 2, 4), (1, 2, 2)];
    let (dist, sigma, preds, order) = shortest_paths(3, &edges, 0);
    assert_eq!(dist, vec![Some(0), Some(2), Some(4)]);
    assert_eq!(sigma, vec![1, 1, 2]);
    assert_eq!(preds[0], Vec::<usize>::new());
    assert_eq!(preds[1], vec![0]);
    assert_eq!(preds[2], vec![0, 1]);
    assert_eq!(order, vec![0, 1, 2]);
}

#[test]
fn shortest_paths_unreachable_nodes() {
    // node 2 has no incoming edge from the component of 0
    let edges: Vec<(usize, usize, i64)> = vec![(0, 1, 1), (2, 0, 1)];
    let (dist, sigma, _, order) = shortest_paths(3, &edges, 0);
    assert_eq!(dist, vec![Some(0), Some(1), None]);
    assert_eq!(sigma, vec![1, 1, 0]);
    assert_eq!(order, vec![0, 1]);
}

#[test]
fn dependency_accumulation_splits_credit() {
    // same graph as the path-count test; dependencies from source 0:
    // delta[2] = 0, delta[1] = 1/2 * (1 + 0) = 1/2,
    // delta[0] = 1/2 * (1 + 0) + 1 * (1 + 1/2) = 2
    let mut graph = petgraph::graph::DiGraph::<String, i64>::new();
    let a = graph.add_node("a".to_string());
    let b = graph.add_node("b".to_string());
    let c = graph.add_node("c".to_string());
    graph.add_edge(a, b, 2);
    graph.add_edge(a, c, 5);
    graph.add_edge(a, c, 4);
    graph.add_edge(b, c, 2);
    let deltas = calculate_betweenness_centrality(&graph, 0).unwrap();
    assert_eq!((deltas[0].num, deltas[0].den), (2, 1));
    assert_eq!((deltas[1].num, deltas[1].den), (1, 2));
    assert_eq!((deltas[2].num, deltas[2].den), (0, 1));
}

#[test]
fn complete_digraph_scores_reach_every_node() {
    // in a complete digraph the dependency accumulated at the source
    // itself is the number of other nodes
    let graph = construct_graph(&reference_rows());
    let scores = centrality_scores(&graph).unwrap();
    assert_eq!(scores.len(), 4);
    for s in &scores {
        assert_eq!((s.num, s.den), (3, 1));
    }
}

#[test]
fn rank_teams_sorted_descending() {
    let graph = construct_graph(&reference_rows());
    let ranked = rank_teams(&graph).unwrap();
    assert_eq!(ranked.len(), 4);
    for i in 1..ranked.len() {
        let hi = &ranked[i - 1].1;
        let lo = &ranked[i].1;
        assert!((hi.num as u128) * (lo.den as u128) >= (lo.num as u128) * (hi.den as u128));
    }
    let mut names: Vec<String> = ranked.iter().map(|p| p.0.clone()).collect();
    names.sort();
    assert_eq!(names, vec!["TeamA", "TeamB", "TeamC", "TeamD"]);
}

#[test]
fn rank_teams_rejects_negative_weights() {
    let mut graph = petgraph::graph::DiGraph::<String, i64>::new();
    let a = graph.add_node("a".to_string());
    let b = graph.add_node("b".to_string());
    graph.add_edge(a, b, -5);
    assert!(rank_teams(&graph).is_none());
}

#[test]
fn rank_teams_rejects_oversized_weights() {
    let mut graph = petgraph::graph::DiGraph::<String, i64>::new();
    let a = graph.add_node("a".to_string());
    let b = graph.add_node("b".to_string());
    graph.add_edge(a, b, 0x1_0000_0000);
    assert!(rank_teams(&graph).is_none());
}

#[test]
fn edge_weight_is_absolute_wins_difference() {
    let a = row("A", 10, 0, 0, "s");
    let b = row("B", 8, 0, 0, "s");
    assert_eq!(a.calculate_edge_weight(&b), 2);
    assert_eq!(b.calculate_edge_weight(&a), 2);
    assert_eq!(a.calculate_edge_weight(&a), 0);
    let lo = row("L", i32::MIN, 0, 0, "s");
    let hi = row("H", i32::MAX, 0, 0, "s");
    assert_eq!(lo.calculate_edge_weight(&hi), u32::MAX as i64);
}

#[test]
fn ratio_arithmetic_is_exact_and_reduced() {
    let quarter = Ratio { num: 1, den: 4 };
    let half = ratio_add(&quarter, &quarter).unwrap();
    assert_eq!((half.num, half.den), (1, 2));

    let one = Ratio { num: 1, den: 1 };
    let three_halves = ratio_add(&one, &half).unwrap();
    assert_eq!((three_halves.num, three_halves.den), (3, 2));

    let p = ratio_mul(&three_halves, &Ratio { num: 2, den: 3 }).unwrap();
    assert_eq!((p.num, p.den), (1, 1));

    assert!(ratio_ge(&three_halves, &half));
    assert!(!ratio_ge(&half, &three_halves));
    assert!(ratio_ge(&half, &half));
    assert!(ratio_ge(&half, &Ratio::zero()));
}

#[test]
fn ratio_overflow_reports_none() {
    let big = Ratio {
        num: u64::MAX,
        den: 1,
    };
    // the reduced sum and product cannot fit in 64 bits
    assert!(ratio_add(&big, &big).is_none());
    assert!(ratio_mul(&big, &big).is_none());
}

#[test]
fn rank_teams_orders_distinct_scores() {
    // 0 reaches two nodes, 1 reaches one, 2 reaches none, so the
    // per-source dependencies at the sources are 2, 1 and 0
    let mut graph = petgraph::graph::DiGraph::<String, i64>::new();
    let a = graph.add_node("a".to_string());
    let b = graph.add_node("b".to_string());
    let c = graph.add_node("c".to_string());
    graph.add_edge(a, b, 1);
    graph.add_edge(a, c, 1);
    graph.add_edge(b, c, 1);
    let ranked = rank_teams(&graph).unwrap();
    let summary: Vec<(String, u64, u64)> = ranked
        .iter()
        .map(|(n, r)| (n.clone(), r.num, r.den))
        .collect();
    assert_eq!(
        summary,
        vec![
            ("a".to_string(), 2, 1),
            ("b".to_string(), 1, 1),
            ("c".to_string(), 0, 1),
        ]
    );
}

#[test]
fn sort_keeps_input_order_on_ties() {
    let half = Ratio { num: 1, den: 2 };
    let two = Ratio { num: 2, den: 1 };
    let list = vec![
        ("first".to_string(), half),
        ("second".to_string(), two),
        ("third".to_string(), half),
        ("fourth".to_string(), Ratio { num: 2, den: 4 }),
    ];
    let sorted = sort_by_score(list);
    let names: Vec<String> = sorted.iter().map(|p| p.0.clone()).collect();
    // equal values (1/2 and the unreduced 2/4) keep their input order
    assert_eq!(names, vec!["second", "first", "third", "fourth"]);
}
