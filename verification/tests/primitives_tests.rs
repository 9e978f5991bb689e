//! Unit tests for the distance, statistics and power primitives.

use libmath::distance::euclidian_distance_1_d;
use libmath::distance::euclidian_distance_2_d;
use libmath::distance::euclidian_distance_n_d;
use libmath::distance::hamming_distance;
use libmath::distance::levenshtein_distance;
use libmath::powers::nearest_power_of_2;
use libmath::statistics::average_i64;
use libmath::statistics::max_i64;
use libmath::statistics::max_usize;
use libmath::statistics::min_i64;
use libmath::statistics::min_usize;

#[test]
fn one_dimensional_distance_is_absolute_difference() {
    assert_eq!(euclidian_distance_1_d(3, -4), 7);
    assert_eq!(euclidian_distance_1_d(-4, 3), 7);
    assert_eq!(euclidian_distance_1_d(5, 5), 0);
    assert_eq!(euclidian_distance_1_d(-1_000_000, 1_000_000), 2_000_000);
}

#[test]
fn two_dimensional_distance_exact_and_rounded() {
    assert_eq!(euclidian_distance_2_d(0, 0, 3, 4), 5);
    assert_eq!(euclidian_distance_2_d(1, 1, 1, 1), 0);
    // sqrt(2) rounds down to 1.
    assert_eq!(euclidian_distance_2_d(0, 0, 1, 1), 1);
    assert_eq!(euclidian_distance_2_d(-3, 0, 0, -4), 5);
}

#[test]
fn n_dimensional_distance_exact_and_rounded() {
    assert_eq!(euclidian_distance_n_d(&vec![0, 0, 0], &vec![2, 3, 6]), 7);
    assert_eq!(euclidian_distance_n_d(&vec![0], &vec![5]), 5);
    // sqrt(27) rounds down to 5.
    assert_eq!(euclidian_distance_n_d(&vec![0, 0, 0], &vec![3, 3, 3]), 5);
    assert_eq!(euclidian_distance_n_d(&Vec::new(), &Vec::new()), 0);
}

#[test]
fn n_dimensional_distance_agrees_with_lower_dimensions() {
    assert_eq!(
        euclidian_distance_n_d(&vec![7], &vec![-2]),
        euclidian_distance_1_d(7, -2)
    );
    assert_eq!(
        euclidian_distance_n_d(&vec![1, 2], &vec![4, 6]),
        euclidian_distance_2_d(1, 2, 4, 6)
    );
}

#[test]
fn hamming_distance_counts_differing_bytes() {
    assert_eq!(hamming_distance("1011101", "1001001"), 2);
    assert_eq!(hamming_distance("abc", "abc"), 0);
    assert_eq!(hamming_distance("", ""), 0);
}

#[test]
fn hamming_distance_of_unequal_lengths_is_max() {
    assert_eq!(hamming_distance("abc", "ab"), usize::MAX);
}

#[test]
fn levenshtein_distance_cases() {
    assert_eq!(levenshtein_distance("foo", "foobar"), 3);
    assert_eq!(levenshtein_distance("kitten", "sitting"), 3);
    assert_eq!(levenshtein_distance("", "abc"), 3);
    assert_eq!(levenshtein_distance("abc", ""), 3);
    assert_eq!(levenshtein_distance("abc", "abc"), 0);
    assert_eq!(levenshtein_distance("flaw", "lawn"), 2);
}

#[test]
fn average_rounds_towards_zero() {
    assert_eq!(average_i64(&vec![1, 2, 3, 4, 5, 6, 7, 8, 9]), 5);
    assert_eq!(average_i64(&vec![1, 2]), 1);
    assert_eq!(average_i64(&vec![-3, -4]), -3);
    assert_eq!(average_i64(&vec![42]), 42);
}

#[test]
fn minima_and_maxima() {
    assert_eq!(min_i64(&vec![3, -7, 12, 0]), -7);
    assert_eq!(max_i64(&vec![3, -7, 12, 0]), 12);
    assert_eq!(min_usize(&vec![3, 7, 1, 9]), 1);
    assert_eq!(max_usize(&vec![3, 7, 1, 9]), 9);
    assert_eq!(min_i64(&vec![5]), 5);
    assert_eq!(max_i64(&vec![5]), 5);
}

#[test]
fn nearest_power_of_2_cases() {
    assert_eq!(nearest_power_of_2(0), 1);
    assert_eq!(nearest_power_of_2(1), 1);
    assert_eq!(nearest_power_of_2(2), 2);
    assert_eq!(nearest_power_of_2(3), 4);
    assert_eq!(nearest_power_of_2(64), 64);
    assert_eq!(nearest_power_of_2(65), 128);
    assert_eq!(nearest_power_of_2(1023), 1024);
}
