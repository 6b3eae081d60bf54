//! Scenario checks for the library's stated properties: threshold
//! monotonicity, missing-value isolation, centrality of isolated nodes,
//! component partitioning, unbounded scores, bucket boundaries, filter
//! counts, top-K order, and exact weights.

use neo_hazard::buckets::{band_of_exec, cluster_asteroids_by_hazard, RiskBand};
use neo_hazard::centrality::{closeness_centrality, Centrality};
use neo_hazard::components::connected_components;
use neo_hazard::pgraph::{graph_edge_count, graph_edges_vec, graph_node_count};
use neo_hazard::hazard_graph::build_hazard_graph;
use neo_hazard::proximity::build_proximity_graph;
use neo_hazard::buckets::bucket_label_of;
use neo_hazard::rank::{find_ranked_entry, rank_hazardous_asteroids};
use neo_hazard::score::{hazard_le_exec, AsteroidData, Hazard};
use neo_hazard::topk::top_k_closest;

fn probe(des: &str, dist: Option<u64>, dist_min: Option<u64>, v_rel: u64) -> AsteroidData {
    AsteroidData {
        des: des.to_string(),
        orbit_id: String::new(),
        jd: 0,
        cd: String::new(),
        dist,
        dist_min,
        dist_max: None,
        v_rel,
        v_inf: 0,
        t_sigma_f: String::new(),
    }
}

fn same_value(a: &Hazard, b: &Hazard) -> bool {
    hazard_le_exec(a, b) && hazard_le_exec(b, a)
}

#[test]
fn proximity_edge_count_monotone_in_threshold() {
    // nominal distances 0.002, 0.0025, 0.01 in millionths
    let data = vec![
        probe("a", Some(2_000), None, 0),
        probe("b", Some(2_500), None, 0),
        probe("c", Some(10_000), None, 0),
    ];
    // all pairwise gaps (500, 7_500, 8_000) exceed 100, so no edges
    let tight = build_proximity_graph(&data, 100);
    assert_eq!(graph_edge_count(&tight), 0);
    // at 1_000 only the gap of 500 qualifies
    let mid = build_proximity_graph(&data, 1_000);
    assert_eq!(graph_edge_count(&mid), 1);
    // at 10_000 every pair qualifies
    let wide = build_proximity_graph(&data, 10_000);
    assert_eq!(graph_edge_count(&wide), 3);
    assert!(graph_edge_count(&tight) <= graph_edge_count(&mid));
    assert!(graph_edge_count(&mid) <= graph_edge_count(&wide));
    // nodes are one-to-one with records regardless of threshold
    assert_eq!(graph_node_count(&tight), 3);
    assert_eq!(graph_node_count(&wide), 3);
}

#[test]
fn missing_distance_stays_isolated() {
    let data = vec![
        probe("known1", Some(1_000), None, 0),
        probe("unknown", None, None, 0),
        probe("known2", Some(1_200), None, 0),
    ];
    let g = build_proximity_graph(&data, u64::MAX);
    // even an unbounded threshold links only the two known distances
    assert_eq!(graph_edge_count(&g), 1);
    for (a, b, _) in graph_edges_vec(&g) {
        assert_ne!(a, 1, "a record with a missing distance has degree 0");
        assert_ne!(b, 1, "a record with a missing distance has degree 0");
    }
}

#[test]
fn proximity_edge_weight_is_exact_gap() {
    let data = vec![probe("a", Some(2_000), None, 0), probe("b", Some(2_500), None, 0)];
    let g = build_proximity_graph(&data, 1_000);
    let edges = graph_edges_vec(&g);
    assert_eq!(edges.len(), 1);
    assert_eq!(edges[0], (0, 1, (500, 1)));
}

#[test]
fn centrality_of_isolated_node_is_zero() {
    let data = vec![
        probe("a", Some(1_000), None, 0),
        probe("b", Some(1_800), None, 0),
        probe("far", Some(50_000), None, 0),
        probe("unknown", None, None, 0),
    ];
    let g = build_proximity_graph(&data, 1_000);
    let cents = closeness_centrality(&g);
    assert_eq!(cents.len(), 4);
    // "far" has no partner within the threshold; "unknown" has no distance
    assert_eq!(cents[2], (2, Centrality::Zero));
    assert_eq!(cents[3], (3, Centrality::Zero));
    // the linked pair sees exactly its gap of 800
    assert_eq!(cents[0], (0, Centrality::Inverse { sum: 800 }));
    assert_eq!(cents[1], (1, Centrality::Inverse { sum: 800 }));
}

#[test]
fn centrality_inverts_shortest_path_sums() {
    // distances 0.001, 0.002, 0.01: gaps 1_000, 8_000, 9_000 all qualify
    let data = vec![
        probe("a", Some(1_000), None, 0),
        probe("b", Some(2_000), None, 0),
        probe("c", Some(10_000), None, 0),
    ];
    let g = build_proximity_graph(&data, 9_000);
    assert_eq!(graph_edge_count(&g), 3);
    let cents = closeness_centrality(&g);
    // from "a": 1_000 to "b", 9_000 to "c" (direct, no cheaper detour)
    assert_eq!(cents[0], (0, Centrality::Inverse { sum: 10_000 }));
    // from "b": 1_000 to "a", 8_000 to "c"
    assert_eq!(cents[1], (1, Centrality::Inverse { sum: 9_000 }));
    // from "c": 8_000 to "b", 9_000 to "a"
    assert_eq!(cents[2], (2, Centrality::Inverse { sum: 17_000 }));
}

#[test]
fn components_partition_the_node_set() {
    let data = vec![
        probe("a", Some(1_000), None, 0),
        probe("b", Some(1_800), None, 0),
        probe("far", Some(50_000), None, 0),
        probe("unknown", None, None, 0),
    ];
    let g = build_proximity_graph(&data, 1_000);
    let clusters = connected_components(&g);
    let total: usize = clusters.iter().map(|c| c.len()).sum();
    assert_eq!(total, 4, "cluster sizes add up to the node count");
    // every node appears in exactly one cluster
    for key in 0u32..4 {
        let holders = clusters.iter().filter(|c| c.contains(&key)).count();
        assert_eq!(holders, 1);
    }
    // "a" and "b" share a component; the others stand alone
    assert_eq!(clusters.len(), 3);
    let first = &clusters[0];
    assert!(first.contains(&0) && first.contains(&1) && first.len() == 2);
}

#[test]
fn zero_distance_scores_unbounded_and_sorts_first() {
    let data = vec![
        probe("mild", None, Some(100_000), 5_000_000),
        probe("grazer", None, Some(0), 1),
        probe("quick", None, Some(20_000), 20_000_000),
    ];
    let ranked = rank_hazardous_asteroids(&data);
    assert_eq!(ranked[0].score, Hazard::Infinite);
    assert_eq!(ranked[0].des, "grazer");
    // a missing minimum distance also counts as certain hazard, never NaN
    let data2 = vec![
        probe("mild", None, Some(100_000), 5_000_000),
        probe("lost", None, None, 1),
    ];
    let ranked2 = rank_hazardous_asteroids(&data2);
    assert_eq!(ranked2[0].score, Hazard::Infinite);
    assert_eq!(ranked2[0].des, "lost");
}

#[test]
fn bucket_boundaries_are_lower_inclusive() {
    // scores exactly 10, 50 and 100, plus one just below 10
    let data = vec![
        probe("ten", None, Some(1_000_000), 10_000_000),
        probe("fifty", None, Some(1_000_000), 50_000_000),
        probe("hundred", None, Some(1_000_000), 100_000_000),
        probe("nine", None, Some(1_000_000), 9_999_999),
    ];
    let ranked = rank_hazardous_asteroids(&data);
    let clusters = cluster_asteroids_by_hazard(&ranked);
    assert!(clusters.band(RiskBand::Low).iter().any(|e| e.des == "ten"));
    assert!(clusters.band(RiskBand::Moderate).iter().any(|e| e.des == "fifty"));
    assert!(clusters.band(RiskBand::Highest).iter().any(|e| e.des == "hundred"));
    assert!(clusters.band(RiskBand::Negligible).iter().any(|e| e.des == "nine"));
}

#[test]
fn buckets_partition_every_entry() {
    let data = vec![
        probe("inf", None, Some(0), 1),
        probe("big", None, Some(10_000), 20_000_000),
        probe("small", None, Some(1_000_000), 1_000_000),
        probe("tiny", None, Some(1_000_000), 1),
    ];
    let ranked = rank_hazardous_asteroids(&data);
    let clusters = cluster_asteroids_by_hazard(&ranked);
    let bands = [RiskBand::Negligible, RiskBand::Low, RiskBand::Moderate, RiskBand::Highest];
    let total: usize = bands.iter().map(|b| clusters.band(*b).len()).sum();
    assert_eq!(total, ranked.len());
    for entry in &ranked {
        let holders = bands
            .iter()
            .filter(|b| clusters.band(**b).iter().any(|e| e.des == entry.des))
            .count();
        assert_eq!(holders, 1, "every ranked entry appears in exactly one bucket");
    }
}

#[test]
fn hazard_graph_node_count_matches_filter() {
    let data = vec![
        probe("in1", None, Some(30_000), 15_000_000),
        probe("slow", None, Some(30_000), 9_000_000),
        probe("far", None, Some(60_000), 15_000_000),
        probe("in2", None, Some(50_000), 10_000_000),
        probe("lost", None, None, 99_000_000),
    ];
    let g = build_hazard_graph(&data, 50_000, 10_000_000);
    // exactly the records with dist_min <= 0.05 and v_rel >= 10 survive
    assert_eq!(graph_node_count(&g), 2);
    // a complete simple graph over 2 nodes has one edge
    assert_eq!(graph_edge_count(&g), 1);
}

#[test]
fn hazard_graph_edge_weight_is_exact_score_difference() {
    let data = vec![
        probe("ab", None, Some(30_000), 15_000_000),
        probe("zz", None, Some(20_000), 20_000_000),
    ];
    let g = build_hazard_graph(&data, 50_000, 10_000_000);
    let edges = graph_edges_vec(&g);
    // |15e6/3e4 - 20e6/2e4| = |500 - 1000| as the exact cross-multiplied pair
    assert_eq!(edges, vec![(0, 1, (300_000_000_000, 600_000_000))]);
}

#[test]
fn top_k_closest_orders_by_distance() {
    let data = vec![
        probe("A", Some(2_000), None, 0),
        probe("B", Some(3_000), None, 0),
        probe("C", Some(1_000), None, 0),
    ];
    let top = top_k_closest(&data, 3);
    assert_eq!(top.len(), 3);
    assert_eq!(top[0].des, "C");
    assert_eq!(top[1].des, "A");
    assert_eq!(top[2].des, "B");
    // truncation keeps only the closest
    let two = top_k_closest(&data, 2);
    assert_eq!(two.len(), 2);
    assert_eq!(two[0].des, "C");
    assert_eq!(two[1].des, "A");
    // unknown distances sort after known ones
    let data2 = vec![probe("x", None, None, 0), probe("y", Some(5_000), None, 0)];
    let top2 = top_k_closest(&data2, 2);
    assert_eq!(top2[0].des, "y");
    assert_eq!(top2[1].des, "x");
}

#[test]
fn raw_ratio_convention_yields_highest_risk() {
    // v_rel 20.0 km/s over dist_min 0.02 AU: raw-ratio score 1000.0
    let data = vec![probe("hot", None, Some(20_000), 20_000_000)];
    let ranked = rank_hazardous_asteroids(&data);
    assert!(same_value(&ranked[0].score, &Hazard::Ratio { vel: 1000, dist: 1 }));
    assert_eq!(band_of_exec(&ranked[0].score), RiskBand::Highest);
    let clusters = cluster_asteroids_by_hazard(&ranked);
    assert!(clusters.band(RiskBand::Highest).iter().any(|e| e.des == "hot"));
}

#[test]
fn empty_input_yields_empty_results() {
    let data: Vec<AsteroidData> = Vec::new();
    let g = build_proximity_graph(&data, 1_000);
    assert_eq!(graph_node_count(&g), 0);
    assert_eq!(graph_edge_count(&g), 0);
    assert_eq!(closeness_centrality(&g).len(), 0);
    assert_eq!(connected_components(&g).len(), 0);
    assert_eq!(rank_hazardous_asteroids(&data).len(), 0);
    assert_eq!(top_k_closest(&data, 5).len(), 0);
}

#[test]
fn lookup_finds_first_match_by_designation() {
    let data = vec![
        probe("solo", None, Some(100_000), 5_000_000),
        probe("twin", None, Some(20_000), 20_000_000),
        probe("twin", None, Some(40_000), 20_000_000),
    ];
    let ranked = rank_hazardous_asteroids(&data);
    // ranked order: twin (1000), twin (500), solo (50)
    let pos = find_ranked_entry(&ranked, &"twin".to_string());
    assert_eq!(pos, Some(0), "the first ranked entry with the name is returned");
    let solo = find_ranked_entry(&ranked, &"solo".to_string()).unwrap();
    assert_eq!(ranked[solo].des, "solo");
    assert_eq!(find_ranked_entry(&ranked, &"nobody".to_string()), None);
}

#[test]
fn bucket_label_matches_score_band() {
    let data = vec![
        probe("hot", None, Some(20_000), 20_000_000),
        probe("cool", None, Some(1_000_000), 1_000_000),
    ];
    let ranked = rank_hazardous_asteroids(&data);
    assert_eq!(bucket_label_of(&ranked[0]), "Highest Risk");
    assert_eq!(bucket_label_of(&ranked[1]), "Negligible Risk");
}

#[test]
fn duplicate_designations_keep_their_own_rows() {
    // the graphs are keyed by row index, so equal names cannot collide
    let data = vec![
        probe("twin", Some(1_000), None, 0),
        probe("twin", Some(1_200), None, 0),
    ];
    let g = build_proximity_graph(&data, 500);
    assert_eq!(graph_node_count(&g), 2);
    assert_eq!(graph_edge_count(&g), 1);
}
