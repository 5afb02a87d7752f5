use dbscan::{cluster, cluster_labels, neighbours, Label};

fn euclidean_near(points: &[(f64, f64)], eps: f64) -> Vec<Vec<bool>> {
    points
        .iter()
        .map(|a| {
            points
                .iter()
                .map(|b| ((a.0 - b.0).powi(2) + (a.1 - b.1).powi(2)).sqrt() <= eps)
                .collect()
        })
        .collect()
}

fn sorted(mut v: Vec<u32>) -> Vec<u32> {
    v.sort();
    v
}

fn sorted_groups(groups: Vec<Vec<u32>>) -> Vec<Vec<u32>> {
    let mut gs: Vec<Vec<u32>> = groups.into_iter().map(sorted).collect();
    gs.sort();
    gs
}

fn from_pairs(n: usize, pairs: &[(usize, usize)]) -> Vec<Vec<bool>> {
    let mut m = vec![vec![false; n]; n];
    for &(a, b) in pairs {
        m[a][b] = true;
        m[b][a] = true;
    }
    m
}

#[test]
fn it_works() {
    let results = cluster(Vec::<u32>::new(), &Vec::new(), 0);
    assert!(results.clusters().is_empty());
}

#[test]
fn three_close_points_form_one_cluster() {
    let points = [(0.0, 0.0), (1.0, 0.0), (0.0, -1.0)];
    let near = euclidean_near(&points, 2.0);
    let results = cluster(vec![0u32, 1, 2], &near, 1);
    assert_eq!(sorted_groups(results.clusters()), vec![vec![0, 1, 2]]);
    assert!(results.noise().is_empty());
}

#[test]
fn two_separate_groups_form_two_clusters() {
    let points = [(0.0, 0.0), (1.0, 0.0), (0.0, -1.0), (3.0, 5.0), (4.0, 5.0), (5.0, 5.0)];
    let near = euclidean_near(&points, 2.0);
    let results = cluster(vec![0u32, 1, 2, 3, 4, 5], &near, 1);
    assert_eq!(sorted_groups(results.clusters()), vec![vec![0, 1, 2], vec![3, 4, 5]]);
    assert!(results.noise().is_empty());
    assert_eq!(results.cluster_count(), 2);
}

#[test]
fn isolated_point_is_noise() {
    let points = [
        (0.0, 0.0),
        (1.0, 0.0),
        (0.0, -1.0),
        (3.0, 5.0),
        (4.0, 5.0),
        (5.0, 5.0),
        (-1.0, 4.0),
    ];
    let near = euclidean_near(&points, 2.0);
    let results = cluster(vec![0u32, 1, 2, 3, 4, 5, 6], &near, 1);
    assert_eq!(results.noise(), vec![6]);
    assert_eq!(sorted_groups(results.clusters()), vec![vec![0, 1, 2], vec![3, 4, 5]]);
}

#[test]
fn demonstration_points_cluster_as_expected() {
    let points = [
        (0.0, 0.0),
        (1.0, 0.0),
        (0.0, -1.0),
        (1.0, 2.0),
        (3.0, 5.0),
        (4.0, 5.0),
        (5.0, 5.0),
        (3.0, -2.0),
        (3.0, 0.0),
        (-1.0, 4.0),
    ];
    let near = euclidean_near(&points, 2.0);
    let results = cluster((0u32..10).collect(), &near, 1);
    assert_eq!(
        results.clusters(),
        vec![vec![0, 1, 2, 3, 7, 8], vec![4, 5, 6]]
    );
    assert_eq!(results.noise(), vec![9]);
}

#[test]
fn empty_input_gives_nothing() {
    let (labels, count) = cluster_labels(&Vec::new(), 2);
    assert!(labels.is_empty());
    assert_eq!(count, 0);
    let results = cluster(Vec::<u32>::new(), &Vec::new(), 2);
    assert!(results.clusters().is_empty());
    assert!(results.noise().is_empty());
    assert!(results.inner().is_empty());
}

#[test]
fn far_apart_points_are_all_noise() {
    let points = [(0.0, 0.0), (10.0, 0.0), (0.0, 10.0), (10.0, 10.0)];
    let near = euclidean_near(&points, 2.0);
    let results = cluster(vec![0u32, 1, 2, 3], &near, 1);
    assert!(results.clusters().is_empty());
    assert_eq!(results.noise(), vec![0, 1, 2, 3]);
    assert_eq!(results.inner(), &vec![Label::Noise; 4]);
}

#[test]
fn repeated_runs_give_the_same_labels() {
    let points = [(0.0, 0.0), (1.0, 0.0), (5.0, 5.0), (5.0, 6.0), (9.0, 9.0)];
    let near = euclidean_near(&points, 1.5);
    let first = cluster_labels(&near, 0);
    let second = cluster_labels(&near, 0);
    assert_eq!(first, second);
    assert_eq!(
        first.0,
        vec![Label::Cluster(0), Label::Cluster(0), Label::Cluster(1), Label::Cluster(1), Label::Noise]
    );
    assert_eq!(first.1, 2);
}

#[test]
fn projections_are_stable_across_calls() {
    let points = [(0.0, 0.0), (1.0, 0.0), (0.0, -1.0), (8.0, 8.0)];
    let near = euclidean_near(&points, 2.0);
    let results = cluster(vec![0u32, 1, 2, 3], &near, 1);
    assert_eq!(results.clusters(), results.clusters());
    assert_eq!(results.noise(), results.noise());
    assert_eq!(results.clusters(), vec![vec![0, 1, 2]]);
    assert_eq!(results.noise(), vec![3]);
}

#[test]
fn larger_radius_keeps_clustered_points_clustered() {
    let points = [(0.0, 0.0), (1.0, 0.0), (2.0, 0.0), (4.0, 0.0), (5.0, 0.0), (6.0, 0.0)];
    let small = cluster((0u32..6).collect(), &euclidean_near(&points, 1.0), 1);
    assert_eq!(small.clusters(), vec![vec![0, 1, 2], vec![3, 4, 5]]);
    let large = cluster((0u32..6).collect(), &euclidean_near(&points, 2.0), 1);
    assert_eq!(large.clusters(), vec![vec![0, 1, 2, 3, 4, 5]]);
    assert!(large.noise().is_empty());
}

#[test]
fn exactly_min_pts_neighbours_is_not_a_core_point() {
    // two points near each other: one neighbour each
    let near = from_pairs(2, &[(0, 1)]);
    let (labels, count) = cluster_labels(&near, 1);
    assert_eq!(labels, vec![Label::Noise, Label::Noise]);
    assert_eq!(count, 0);
    let (labels, count) = cluster_labels(&near, 0);
    assert_eq!(labels, vec![Label::Cluster(0), Label::Cluster(0)]);
    assert_eq!(count, 1);
}

#[test]
fn noise_point_is_promoted_to_border() {
    // a chain 0 - 1 - 2 - 3: the end points have one neighbour each
    let near = from_pairs(4, &[(0, 1), (1, 2), (2, 3)]);
    let (labels, count) = cluster_labels(&near, 1);
    assert_eq!(labels, vec![Label::Cluster(0); 4]);
    assert_eq!(count, 1);
}

#[test]
fn border_point_stays_with_first_cluster() {
    // core 0 with neighbours 1, 2, 5; core 4 with neighbours 2, 3, 6
    let near = from_pairs(7, &[(0, 1), (0, 2), (0, 5), (4, 2), (4, 3), (4, 6)]);
    let (labels, count) = cluster_labels(&near, 2);
    assert_eq!(
        labels,
        vec![
            Label::Cluster(0),
            Label::Cluster(0),
            Label::Cluster(0),
            Label::Cluster(1),
            Label::Cluster(1),
            Label::Cluster(0),
            Label::Cluster(1),
        ]
    );
    assert_eq!(count, 2);
}

#[test]
fn expansion_follows_chains_of_core_points() {
    // points on a line, each within reach of the next two
    let points: Vec<(f64, f64)> = (0..8).map(|i| (i as f64, 0.0)).collect();
    let near = euclidean_near(&points, 2.0);
    let results = cluster((0u32..8).collect(), &near, 2);
    assert_eq!(results.clusters(), vec![(0u32..8).collect::<Vec<_>>()]);
    assert!(results.noise().is_empty());
}

#[test]
fn min_pts_zero_clusters_every_point_with_a_neighbour() {
    let near = from_pairs(5, &[(0, 3), (1, 4)]);
    let (labels, count) = cluster_labels(&near, 0);
    assert_eq!(
        labels,
        vec![Label::Cluster(0), Label::Cluster(1), Label::Noise, Label::Cluster(0), Label::Cluster(1)]
    );
    assert_eq!(count, 2);
}

#[test]
fn neighbours_skip_the_point_itself() {
    let near = vec![
        vec![true, true, false, true],
        vec![true, true, true, false],
        vec![false, true, true, false],
        vec![true, false, false, true],
    ];
    assert_eq!(neighbours(&near, 0), vec![1, 3]);
    assert_eq!(neighbours(&near, 2), vec![1]);
}

#[test]
fn wider_relation_may_move_a_border_point() {
    // border point 3 joins core 4's cluster; a new pair (0, 3) makes 0 a
    // core point whose cluster is found first and takes 3
    let pairs = [(0, 1), (0, 2), (4, 3), (4, 5), (4, 6)];
    let narrow = from_pairs(7, &pairs);
    let (labels, count) = cluster_labels(&narrow, 2);
    assert_eq!(
        labels,
        vec![
            Label::Noise,
            Label::Noise,
            Label::Noise,
            Label::Cluster(0),
            Label::Cluster(0),
            Label::Cluster(0),
            Label::Cluster(0),
        ]
    );
    assert_eq!(count, 1);
    let mut wide_pairs = pairs.to_vec();
    wide_pairs.push((0, 3));
    let wide = from_pairs(7, &wide_pairs);
    let (labels, count) = cluster_labels(&wide, 2);
    assert_eq!(
        labels,
        vec![
            Label::Cluster(0),
            Label::Cluster(0),
            Label::Cluster(0),
            Label::Cluster(0),
            Label::Cluster(1),
            Label::Cluster(1),
            Label::Cluster(1),
        ]
    );
    assert_eq!(count, 2);
}
