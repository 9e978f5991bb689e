//! Scenario tests for the clustering engine: separable data, single
//! cluster, degenerate datasets, dimensional windowing, and the exact
//! configuration errors.

use libmath::kmeans::kmeans;
use libmath::kmeans::kmeans_1_d;
use libmath::kmeans::kmeans_equally_space_centroids;
use libmath::kmeans::kmeans_equally_space_centroids_1_d;
use libmath::kmeans::KmeansError;

#[test]
fn separable_dataset_partitions_cleanly() {
    // 0.0 and 10.0 at two decimal places of fixed point; tolerance 0.01.
    let data: Vec<i64> = vec![0, 0, 0, 1000, 1000, 1000];
    let (tags, avg_error) =
        kmeans_equally_space_centroids_1_d(data, 2, 1, 10).unwrap();
    assert_eq!(tags, vec![0, 0, 0, 1, 1, 1]);
    assert_eq!(avg_error, 0);
}

#[test]
fn separable_small_values_partition() {
    let data: Vec<i64> = vec![0, 0, 0, 10, 10, 10];
    let (tags, avg_error) = kmeans_equally_space_centroids_1_d(data, 2, 0, 10).unwrap();
    assert_eq!(tags, vec![0, 0, 0, 1, 1, 1]);
    assert_eq!(avg_error, 0);
}

#[test]
fn separable_dataset_final_centroids() {
    let data: Vec<i64> = vec![0, 0, 0, 1000, 1000, 1000];
    let mut centroids: Vec<i64> = vec![0, 1000];
    let (tags, avg_error) = kmeans_1_d(data, 2, 1, 10, &mut centroids).unwrap();
    assert_eq!(tags, vec![0, 0, 0, 1, 1, 1]);
    assert_eq!(avg_error, 0);
    assert_eq!(centroids, vec![0, 1000]);
}

#[test]
fn single_cluster_tags_all_zero_and_centroid_is_mean() {
    let data: Vec<i64> = vec![1, 2, 3, 4];
    let mut centroids: Vec<i64> = vec![1];
    let (tags, _avg_error) = kmeans_1_d(data, 1, 0, 5, &mut centroids).unwrap();
    assert_eq!(tags, vec![0, 0, 0, 0]);
    // Mean of 1, 2, 3, 4 rounded towards zero.
    assert_eq!(centroids, vec![2]);
}

#[test]
fn degenerate_single_sample_short_circuits() {
    let data: Vec<i64> = vec![5];
    let (tags, avg_error) = kmeans_equally_space_centroids_1_d(data, 2, 1, 10).unwrap();
    assert_eq!(tags, vec![0]);
    assert_eq!(avg_error, 0);
}

#[test]
fn degenerate_empty_dataset_short_circuits() {
    let data: Vec<i64> = vec![];
    let (tags, avg_error) = kmeans_equally_space_centroids_1_d(data, 3, 1, 10).unwrap();
    assert_eq!(tags, Vec::<usize>::new());
    assert_eq!(avg_error, 0);
}

#[test]
fn single_sample_engine_leaves_centroids_alone() {
    let data: Vec<i64> = vec![7];
    let mut centroids: Vec<i64> = vec![100, 200];
    let (tags, avg_error) = kmeans_1_d(data, 2, 0, 10, &mut centroids).unwrap();
    assert_eq!(tags, vec![0]);
    assert_eq!(avg_error, 0);
    assert_eq!(centroids, vec![100, 200]);
}

#[test]
fn windowed_distance_separates_on_second_dimension() {
    // The clusters differ only in the second coordinate: an implementation
    // that compared a sample's window against the whole centroid array (or
    // against centroid 0 alone) would lump everything together.
    let data: Vec<i64> = vec![0, 0, 0, 0, 0, 1000, 0, 1000];
    let mut centroids: Vec<i64> = vec![0, 0, 0, 1000];
    let (tags, avg_error) = kmeans(data, 2, 2, 1, 10, &mut centroids).unwrap();
    assert_eq!(tags, vec![0, 0, 1, 1]);
    assert_eq!(avg_error, 0);
    assert_eq!(centroids, vec![0, 0, 0, 1000]);
}

#[test]
fn centroid_update_uses_only_its_own_cluster() {
    // Two well-separated groups; each final centroid is the mean of its own
    // group's samples alone.
    let data: Vec<i64> = vec![10, 30, 990, 1010];
    let mut centroids: Vec<i64> = vec![0, 1000];
    let (tags, _avg_error) = kmeans_1_d(data, 2, 0, 10, &mut centroids).unwrap();
    assert_eq!(tags, vec![0, 0, 1, 1]);
    assert_eq!(centroids, vec![20, 1000]);
}

#[test]
fn constant_second_dimension_matches_one_dimensional_run() {
    let varying: Vec<i64> = vec![0, 10, 1000, 990, 480, 520];
    let paired: Vec<i64> = vec![0, 7, 10, 7, 1000, 7, 990, 7, 480, 7, 520, 7];
    let (tags_1d, err_1d) =
        kmeans_equally_space_centroids_1_d(varying, 2, 0, 10).unwrap();
    let (tags_2d, err_2d) = kmeans_equally_space_centroids(paired, 2, 2, 0, 10).unwrap();
    assert_eq!(tags_2d, tags_1d);
    assert_eq!(err_2d, err_1d);
}

#[test]
fn reclustering_from_converged_centroids_keeps_tags() {
    // Once the engine has converged, running it again from the converged
    // centroids relocates nothing.
    let data: Vec<i64> = vec![0, 0, 0, 1000, 1000, 1000];
    let mut centroids: Vec<i64> = vec![0, 1000];
    let (tags_first, _err) =
        kmeans_1_d(data.clone(), 2, 1, 10, &mut centroids).unwrap();
    let (tags_second, _err) = kmeans_1_d(data, 2, 1, 10, &mut centroids).unwrap();
    assert_eq!(tags_second, tags_first);
    assert_eq!(centroids, vec![0, 1000]);
}

#[test]
fn errors_are_non_increasing_under_larger_budgets() {
    // More update steps never leave a larger final average error.
    let data: Vec<i64> = vec![0, 100, 200, 800, 900, 1000, 450, 550];
    let mut previous: i64 = i64::MAX;
    let mut budget: usize = 1;
    while budget <= 6 {
        let (_tags, avg_error) =
            kmeans_equally_space_centroids_1_d(data.clone(), 3, 0, budget).unwrap();
        assert!(avg_error <= previous);
        previous = avg_error;
        budget += 1;
    }
}

#[test]
fn zero_clusters_is_rejected() {
    let mut centroids: Vec<i64> = vec![];
    let res = kmeans_1_d(vec![1, 2, 3], 0, 0, 10, &mut centroids);
    assert_eq!(res, Err(KmeansError::ZeroClusters));
    let res2 = kmeans_equally_space_centroids(vec![1, 2, 3], 1, 0, 0, 10);
    assert_eq!(res2, Err(KmeansError::ZeroClusters));
}

#[test]
fn zero_dimensions_is_rejected() {
    let mut centroids: Vec<i64> = vec![];
    let res = kmeans(vec![1, 2, 3], 0, 2, 0, 10, &mut centroids);
    assert_eq!(res, Err(KmeansError::ZeroDimensions));
    let res2 = kmeans_equally_space_centroids(vec![1, 2, 3], 0, 2, 0, 10);
    assert_eq!(res2, Err(KmeansError::ZeroDimensions));
}

#[test]
fn ragged_dataset_is_rejected() {
    let mut centroids: Vec<i64> = vec![0, 0, 0, 0];
    let res = kmeans(vec![1, 2, 3], 2, 2, 0, 10, &mut centroids);
    assert_eq!(res, Err(KmeansError::DataSizeMismatch));
    let res2 = kmeans_equally_space_centroids(vec![1, 2, 3], 2, 2, 0, 10);
    assert_eq!(res2, Err(KmeansError::DataSizeMismatch));
}

#[test]
fn wrong_centroid_length_is_rejected() {
    let mut centroids: Vec<i64> = vec![0, 0, 0];
    let res = kmeans(vec![1, 2, 3, 4], 2, 2, 0, 10, &mut centroids);
    assert_eq!(res, Err(KmeansError::CentroidSizeMismatch));
    assert_eq!(centroids, vec![0, 0, 0]);
}

#[test]
fn max_iters_zero_still_runs_one_step() {
    // The loop body always runs once; the budget is checked afterwards.
    let data: Vec<i64> = vec![0, 0, 1000, 1000];
    let (tags, _avg_error) = kmeans_equally_space_centroids_1_d(data, 2, 0, 0).unwrap();
    assert_eq!(tags, vec![0, 0, 1, 1]);
}
