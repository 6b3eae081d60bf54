//! The ranking, clustering and hazard-graph pipeline on small record sets.
//!
//! Quantities are fixed-point millionths: a distance of 0.03 AU is 30_000,
//! a velocity of 15.0 km/s is 15_000_000. Hazard scores are then exact
//! raw ratios: 15_000_000 / 30_000 = 500.

use neo_hazard::buckets::{cluster_asteroids_by_hazard, RiskBand};
use neo_hazard::pgraph::{graph_edge_count, graph_node_count};
use neo_hazard::hazard_graph::build_hazard_graph;
use neo_hazard::rank::{rank_hazardous_asteroids, RankedEntry};
use neo_hazard::score::{hazard_le_exec, AsteroidData, Hazard};

fn record(des: &str, dist_min: u64, v_rel: u64, cd: &str) -> AsteroidData {
    AsteroidData {
        des: des.to_string(),
        orbit_id: String::new(),
        jd: 0,
        cd: cd.to_string(),
        dist: None,
        dist_min: Some(dist_min),
        dist_max: None,
        v_rel,
        v_inf: 0,
        t_sigma_f: String::new(),
    }
}

fn mock_asteroid_data() -> Vec<AsteroidData> {
    vec![
        record("2023 AB", 30_000, 15_000_000, "2023-01-01"),
        record("2023 XY", 100_000, 8_000_000, "2023-05-05"),
        record("2023 ZZ", 20_000, 20_000_000, "2023-07-07"),
    ]
}

fn strictly_greater(a: &Hazard, b: &Hazard) -> bool {
    !hazard_le_exec(a, b)
}

fn bucket_has(entries: &Vec<RankedEntry>, des: &str) -> bool {
    entries.iter().any(|e| e.des == des)
}

#[test]
fn test_main_ranking_and_clustering() {
    let data = mock_asteroid_data();

    // ranking: scores are 500, 80, 1000; descending order
    let ranked_asteroids = rank_hazardous_asteroids(&data);
    assert_eq!(ranked_asteroids.len(), 3);
    assert!(
        strictly_greater(&ranked_asteroids[0].score, &ranked_asteroids[1].score),
        "Asteroids should be ranked by hazard score descending."
    );

    // clustering: 1000 and 500 are Highest Risk, 80 is Moderate Risk
    let clusters = cluster_asteroids_by_hazard(&ranked_asteroids);
    assert_eq!(RiskBand::Highest.label(), "Highest Risk");
    assert_eq!(RiskBand::Moderate.label(), "Moderate Risk");
    assert!(
        clusters.band(RiskBand::Highest).len() > 0,
        "At least one asteroid should be in the highest risk cluster."
    );
    assert!(bucket_has(clusters.band(RiskBand::Moderate), "2023 XY"));
}

#[test]
fn test_hazard_graph_building() {
    let data = mock_asteroid_data();
    let dist_threshold = 50_000; // 0.05 AU
    let velocity_threshold = 10_000_000; // 10 km/s

    let hazard_graph = build_hazard_graph(&data, dist_threshold, velocity_threshold);

    // only "2023 AB" and "2023 ZZ" meet both thresholds
    assert_eq!(
        graph_node_count(&hazard_graph),
        2,
        "Graph should include only asteroids meeting the thresholds."
    );

    assert!(
        graph_edge_count(&hazard_graph) > 0,
        "There should be at least one edge in the hazard graph."
    );
}

fn mock_ranked_input() -> Vec<AsteroidData> {
    vec![
        record("Asteroid A", 20_000, 20_000_000, "2024-01-01"),
        record("Asteroid B", 50_000, 10_000_000, "2024-02-01"),
        record("Asteroid C", 100_000, 5_000_000, "2024-03-01"),
    ]
}

#[test]
fn test_rank_hazardous_asteroids() {
    let data = mock_ranked_input();

    let ranked = rank_hazardous_asteroids(&data);

    assert_eq!(ranked.len(), 3, "There should be three asteroids ranked.");
    assert_eq!(
        ranked[0].des, "Asteroid A",
        "Asteroid A should be ranked first due to highest hazard score."
    );
    assert!(
        strictly_greater(&ranked[0].score, &ranked[1].score),
        "Hazard score of the first asteroid should be greater than the second."
    );
    assert!(
        strictly_greater(&ranked[1].score, &ranked[2].score),
        "Hazard score of the second asteroid should be greater than the third."
    );

    // the raw-ratio score of Asteroid A is exactly 20_000_000 / 20_000 = 1000
    let expected = Hazard::Ratio { vel: 1000, dist: 1 };
    assert!(
        hazard_le_exec(&ranked[0].score, &expected) && hazard_le_exec(&expected, &ranked[0].score),
        "Hazard score of Asteroid A should match expected value."
    );
    assert_eq!(
        ranked[0].score,
        Hazard::Ratio { vel: 20_000_000, dist: 20_000 }
    );
}

#[test]
fn test_cluster_asteroids_by_hazard() {
    let data = mock_ranked_input();
    let ranked = rank_hazardous_asteroids(&data);

    let clusters = cluster_asteroids_by_hazard(&ranked);

    assert_eq!(clusters.band_count(), 4, "There should be four clusters.");

    // scores: A = 1000, B = 200 (both Highest Risk), C = 50 (Moderate Risk)
    for entry in &ranked {
        let found = [
            RiskBand::Negligible,
            RiskBand::Low,
            RiskBand::Moderate,
            RiskBand::Highest,
        ]
        .iter()
        .any(|b| bucket_has(clusters.band(*b), &entry.des));
        assert!(found, "Each asteroid should belong to a cluster.");
    }
    assert_eq!(RiskBand::Negligible.label(), "Negligible Risk");
    assert_eq!(RiskBand::Low.label(), "Low Risk");
    assert!(
        bucket_has(clusters.band(RiskBand::Moderate), "Asteroid C"),
        "Asteroid with higher hazard score should be in 'Moderate Risk'."
    );
    assert!(
        bucket_has(clusters.band(RiskBand::Highest), "Asteroid A"),
        "Asteroid with the highest hazard score should be in 'Highest Risk'."
    );
    assert!(bucket_has(clusters.band(RiskBand::Highest), "Asteroid B"));
    assert_eq!(clusters.band(RiskBand::Negligible).len(), 0);
    assert_eq!(clusters.band(RiskBand::Low).len(), 0);
}
