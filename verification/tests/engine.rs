use hcluster::cluster::{Cluster, Country};
use hcluster::engine::{Analyze, AnalyzeError};

fn country(name: &str, attrs: Vec<i64>) -> Country {
    Country { name: name.to_string(), attrs }
}

/// Entities A=[0,0], B=[0,1], C=[5,5] in fixed-point units (scale 1000).
fn abc() -> Vec<Country> {
    vec![
        country("A", vec![0, 0]),
        country("B", vec![0, 1000]),
        country("C", vec![5000, 5000]),
    ]
}

fn cluster_names(c: &Cluster) -> Vec<String> {
    c.countries.iter().map(|x| x.name.clone()).collect()
}

#[test]
fn squared_distance_exact() {
    // 3-4-5 triangle: squared distance is 25 (in squared fixed-point units).
    assert_eq!(Analyze::range(&vec![0, 0], &vec![3, 4]), 25);
    assert_eq!(Analyze::range(&vec![], &vec![]), 0);
    assert_eq!(Analyze::range(&vec![-2], &vec![3]), 25);
}

#[test]
fn cluster_new_add_union() {
    let mut a = Cluster::new();
    assert_eq!(a.countries.len(), 0);
    a.add(country("A", vec![1, 2]));
    a.add(country("B", vec![3, 4]));
    let mut b = Cluster::new();
    b.add(country("C", vec![5, 6]));
    let u = Cluster::union(a, b);
    assert_eq!(cluster_names(&u), vec!["A", "B", "C"]);
    assert_eq!(u.countries[2].attrs, vec![5, 6]);
}

#[test]
fn cluster_range_nearest_pair() {
    let mut ab = Cluster::new();
    ab.add(country("A", vec![0, 0]));
    ab.add(country("B", vec![0, 1000]));
    let mut c = Cluster::new();
    c.add(country("C", vec![5000, 5000]));
    let (li, rj, dist) = Cluster::range(&ab, &c);
    // min(dist(A,C), dist(B,C)) = dist(B,C) = 5000^2 + 4000^2
    assert_eq!(dist, 41_000_000);
    assert_eq!(li, 1);
    assert_eq!(rj, 0);
}

#[test]
fn empty_input_rejected() {
    let r = Analyze::new(Vec::new(), false);
    assert!(matches!(r, Err(AnalyzeError::EmptyInput)));
    let r = Analyze::new(Vec::new(), true);
    assert!(matches!(r, Err(AnalyzeError::EmptyInput)));
}

#[test]
fn inconsistent_lengths_rejected() {
    let v = vec![country("A", vec![1, 2]), country("B", vec![1])];
    let r = Analyze::new(v, false);
    assert!(matches!(r, Err(AnalyzeError::InconsistentAttributeLength)));
}

#[test]
fn construction_builds_singletons_in_order() {
    let a = Analyze::new(abc(), false).unwrap();
    assert_eq!(a.clusters.len(), 3);
    assert_eq!(cluster_names(&a.clusters[0]), vec!["A"]);
    assert_eq!(cluster_names(&a.clusters[1]), vec!["B"]);
    assert_eq!(cluster_names(&a.clusters[2]), vec!["C"]);
    assert_eq!(a.clusters[2].countries[0].attrs, vec![5000, 5000]);
}

#[test]
fn zero_iterations_is_a_no_op() {
    let mut a = Analyze::new(abc(), false).unwrap();
    let d = a.cluster_n_times(0).unwrap();
    // The documented sentinel distance for a run of zero merges.
    assert_eq!(d, 0);
    assert_eq!(a.clusters.len(), 3);
    assert_eq!(cluster_names(&a.clusters[0]), vec!["A"]);
}

#[test]
fn one_merge_combines_nearest_pair() {
    let mut a = Analyze::new(abc(), false).unwrap();
    let d = a.cluster_n_times(1).unwrap();
    // Nearest pair is (A, B), at squared distance 1.0 (fixed point: 1000^2).
    assert_eq!(d, 1_000_000);
    assert_eq!(a.clusters.len(), 2);
    assert_eq!(cluster_names(&a.clusters[0]), vec!["A", "B"]);
    assert_eq!(cluster_names(&a.clusters[1]), vec!["C"]);
}

#[test]
fn second_merge_combines_all() {
    let mut a = Analyze::new(abc(), false).unwrap();
    let d = a.cluster_n_times(2).unwrap();
    // Final merge distance: min(dist(A,C), dist(B,C)) = 41.0 in real units.
    assert_eq!(d, 41_000_000);
    assert_eq!(a.clusters.len(), 1);
    assert_eq!(cluster_names(&a.clusters[0]), vec!["A", "B", "C"]);
}

#[test]
fn too_many_iterations_rejected_without_mutation() {
    let mut a = Analyze::new(abc(), false).unwrap();
    let r = a.cluster_n_times(3);
    assert!(matches!(r, Err(AnalyzeError::InvalidIterationCount)));
    assert_eq!(a.clusters.len(), 3);
    assert_eq!(cluster_names(&a.clusters[1]), vec!["B"]);
    // After two merges only one cluster is left, so even one more step is
    // rejected.
    a.cluster_n_times(2).unwrap();
    let r = a.cluster_n_times(1);
    assert!(matches!(r, Err(AnalyzeError::InvalidIterationCount)));
}

#[test]
fn ties_break_on_first_pair_in_scan_order() {
    // A and B, and B and C, are equally far apart; the first pair in scan
    // order over ascending indices wins.
    let v = vec![
        country("A", vec![0]),
        country("B", vec![2000]),
        country("C", vec![4000]),
    ];
    let mut a = Analyze::new(v, false).unwrap();
    let d = a.cluster_n_times(1).unwrap();
    assert_eq!(d, 4_000_000);
    assert_eq!(a.clusters.len(), 2);
    assert_eq!(cluster_names(&a.clusters[0]), vec!["A", "B"]);
    assert_eq!(cluster_names(&a.clusters[1]), vec!["C"]);
}

#[test]
fn identical_runs_give_identical_results() {
    let run = |n: usize| -> (i128, Vec<Vec<String>>, Vec<Vec<i64>>) {
        let mut a = Analyze::new(abc(), true).unwrap();
        let d = a.cluster_n_times(n).unwrap();
        let names = a.clusters.iter().map(cluster_names).collect();
        let attrs = a
            .clusters
            .iter()
            .flat_map(|c| c.countries.iter().map(|x| x.attrs.clone()))
            .collect();
        (d, names, attrs)
    };
    let first = run(2);
    let second = run(2);
    assert_eq!(first.0, second.0);
    assert_eq!(first.1, second.1);
    assert_eq!(first.2, second.2);
}

#[test]
fn merging_preserves_every_entity() {
    let mut a = Analyze::new(abc(), false).unwrap();
    a.cluster_n_times(2).unwrap();
    let mut names: Vec<String> = a
        .clusters
        .iter()
        .flat_map(|c| c.countries.iter().map(|x| x.name.clone()))
        .collect();
    names.sort();
    assert_eq!(names, vec!["A", "B", "C"]);
}

#[test]
fn zero_length_attribute_vectors_cluster_at_distance_zero() {
    let v = vec![country("A", vec![]), country("B", vec![])];
    let mut a = Analyze::new(v, false).unwrap();
    let d = a.cluster_n_times(1).unwrap();
    assert_eq!(d, 0);
    assert_eq!(a.clusters.len(), 1);
}

#[test]
fn duplicate_entities_are_kept_as_duplicates() {
    let v = vec![
        country("A", vec![0]),
        country("A", vec![0]),
        country("B", vec![9000]),
    ];
    let mut a = Analyze::new(v, false).unwrap();
    let d = a.cluster_n_times(1).unwrap();
    assert_eq!(d, 0);
    assert_eq!(a.clusters.len(), 2);
    assert_eq!(cluster_names(&a.clusters[0]), vec!["A", "A"]);
}
