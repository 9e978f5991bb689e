//! End-to-end exercises of the power, distance and clustering entry points.

#[test]
fn perform_power_tests() {
    println!("\nPower Tests:");
    println!("------------");

    let nearest = libmath::powers::nearest_power_of_2(63);
    println!("Nearest power of 2 for {} is {}.", 63, nearest);
    assert!(nearest == 64);
}

#[test]
fn perform_distance_tests() {
    println!("\nDistance Tests:");
    println!("---------------");

    // Hamming
    let mut distance = libmath::distance::hamming_distance("1011101", "1001001");
    println!("Hamming Distance: {}", distance);
    assert!(distance == 2);

    // Levenshtein
    distance = libmath::distance::levenshtein_distance("foo", "foobar");
    println!("Levenshtein Distance: {}", distance);
    assert!(distance == 3);
}

#[test]
fn perform_kmeans_tests() {
    println!("\nK-Means Tests:");
    println!("--------------");

    let k = 3;
    // Coordinates are fixed-point with three decimal places, so 0.001 is 1.
    let max_error = 1;
    let max_iters = 3;

    let mut kmeans_in: Vec<i64> = vec![7123, 999, 1, 500, 750, 2, 3000, 2000, 5000, 1];
    let mut tags_and_error =
        libmath::kmeans::kmeans_equally_space_centroids_1_d(kmeans_in, k, max_error, max_iters)
            .unwrap();
    println!("1D K-Means: {:?}", tags_and_error);

    let num_dimensions = 2;
    kmeans_in = vec![
        7123, 1000, 999, 1000, 1, 1000, 500, 1000, 750, 1000, 2, 1000, 3000, 1000, 2000, 1000,
        5000, 1000, 1, 1000,
    ];
    tags_and_error = libmath::kmeans::kmeans_equally_space_centroids(
        kmeans_in,
        num_dimensions,
        k,
        max_error,
        max_iters,
    )
    .unwrap();
    println!("2D K-Means: {:?}", tags_and_error);
}
