//! Distance metrics: Hamming distance over strings and exact integer
//! Euclidean distance in one, two and n dimensions.
//!
//! Coordinates are fixed-point values bounded by [`COORD_LIMIT`]; the
//! Euclidean distance of two points is the floor of the square root of the
//! summed squared coordinate differences, computed exactly.

use vstd::prelude::*;
use vstd::string::StringSliceAdditionalSpecFns;

verus! {

/// Largest coordinate magnitude the distance metrics and the clustering
/// engine accept. Callers scale their data into this fixed-point range.
pub const COORD_LIMIT: i64 = 1_000_000;

/// Strict upper bound on any value the Euclidean distance functions return,
/// whatever the dimension count.
pub const MAX_DISTANCE: i64 = 9_000_000_000_000_000;

/// Floor of the square root of `x` (0 for negative `x`).
pub open spec fn isqrt_spec(x: int) -> int
    decreases x,
{
    if x <= 0 {
        0
    } else {
        let r = isqrt_spec(x - 1);
        if (r + 1) * (r + 1) <= x {
            r + 1
        } else {
            r
        }
    }
}

/// Sum of squared element-wise differences of two equal-length sequences.
pub open spec fn sum_sq_diff(p: Seq<int>, q: Seq<int>) -> int
    recommends
        p.len() == q.len(),
    decreases p.len(),
{
    if p.len() == 0 {
        0
    } else {
        sum_sq_diff(p.drop_last(), q.drop_last()) + (p.last() - q.last()) * (p.last() - q.last())
    }
}

/// Euclidean distance of two equal-length integer points, rounded down.
pub open spec fn euclid_dist(p: Seq<int>, q: Seq<int>) -> int
    recommends
        p.len() == q.len(),
{
    isqrt_spec(sum_sq_diff(p, q))
}

/// A sequence of machine integers as a sequence of mathematical integers.
pub open spec fn int_seq(s: Seq<i64>) -> Seq<int> {
    s.map(|i: int, v: i64| v as int)
}

/// `isqrt_spec` is the floor of the square root.
pub proof fn lemma_isqrt_props(x: int)
    requires
        x >= 0,
    ensures
        isqrt_spec(x) >= 0,
        isqrt_spec(x) * isqrt_spec(x) <= x,
        x < (isqrt_spec(x) + 1) * (isqrt_spec(x) + 1),
    decreases x,
{
    if x > 0 {
        lemma_isqrt_props(x - 1);
        let r = isqrt_spec(x - 1);
        if (r + 1) * (r + 1) <= x {
            assert((r + 1) * (r + 1) + 1 <= (r + 2) * (r + 2)) by (nonlinear_arith)
                requires
                    r >= 0,
            ;
        }
    }
}

/// Any `r` with `r * r <= x < (r + 1) * (r + 1)` is the floor square root.
pub proof fn lemma_isqrt_unique(x: int, r: int)
    requires
        x >= 0,
        r >= 0,
        r * r <= x,
        x < (r + 1) * (r + 1),
    ensures
        r == isqrt_spec(x),
{
    let s = isqrt_spec(x);
    lemma_isqrt_props(x);
    if r < s {
        assert((r + 1) * (r + 1) <= s * s) by (nonlinear_arith)
            requires
                0 <= r + 1 <= s,
        ;
    }
    if s < r {
        assert((s + 1) * (s + 1) <= r * r) by (nonlinear_arith)
            requires
                0 <= s + 1 <= r,
        ;
    }
}

/// The floor square root of anything below `b * b` is below `b`.
pub proof fn lemma_isqrt_below(x: int, b: int)
    requires
        0 <= x,
        0 <= b,
        x < b * b,
    ensures
        isqrt_spec(x) < b,
{
    lemma_isqrt_props(x);
    let r = isqrt_spec(x);
    if r >= b {
        assert(b * b <= r * r) by (nonlinear_arith)
            requires
                0 <= b <= r,
        ;
    }
}

/// The floor square root of a perfect square `d * d` is `|d|`.
pub proof fn lemma_isqrt_square(d: int)
    ensures
        isqrt_spec(d * d) == if d >= 0 {
            d
        } else {
            -d
        },
{
    let a = if d >= 0 {
        d
    } else {
        -d
    };
    assert(a * a == d * d) by (nonlinear_arith)
        requires
            a == d || a == -d,
    ;
    assert(a * a < (a + 1) * (a + 1)) by (nonlinear_arith)
        requires
            a >= 0,
    ;
    lemma_isqrt_unique(d * d, a);
}

/// Floor square root, computed by binary search.
fn isqrt_u128(x: u128) -> (r: u128)
    ensures
        r as int == isqrt_spec(x as int),
        r * r <= x,
        x < (r + 1) * (r + 1),
{
    let mut lo: u128 = 0;
    let mut hi: u128 = 0xFFFF_FFFF_FFFF_FFFF;
    proof {
        assert((hi as int + 1) * (hi as int + 1) > u128::MAX as int) by (nonlinear_arith)
            requires
                hi == 0xFFFF_FFFF_FFFF_FFFFu128,
        ;
    }
    while lo < hi
        invariant
            lo <= hi <= 0xFFFF_FFFF_FFFF_FFFF,
            (lo as int) * (lo as int) <= x as int,
            (x as int) < (hi as int + 1) * (hi as int + 1),
        decreases hi - lo,
    {
        let mid: u128 = lo + (hi - lo + 1) / 2;
        proof {
            assert(mid * mid <= 0xFFFF_FFFF_FFFF_FFFF * 0xFFFF_FFFF_FFFF_FFFFu128) by (nonlinear_arith)
                requires
                    mid <= 0xFFFF_FFFF_FFFF_FFFFu128,
            ;
        }
        if mid * mid <= x {
            lo = mid;
        } else {
            hi = mid - 1;
        }
    }
    proof {
        lemma_isqrt_unique(x as int, lo as int);
    }
    lo
}

/// Euclidean distance of two one-dimensional points: `|pt1 - pt2|`.
pub fn euclidian_distance_1_d(pt1: i64, pt2: i64) -> (r: i64)
    requires
        -COORD_LIMIT <= pt1 <= COORD_LIMIT,
        -COORD_LIMIT <= pt2 <= COORD_LIMIT,
    ensures
        r == if pt1 >= pt2 {
            pt1 - pt2
        } else {
            pt2 - pt1
        },
        r == euclid_dist(seq![pt1 as int], seq![pt2 as int]),
        0 <= r < MAX_DISTANCE,
{
    proof {
        let p = seq![pt1 as int];
        let q = seq![pt2 as int];
        assert(p.drop_last() =~= Seq::<int>::empty());
        assert(q.drop_last() =~= Seq::<int>::empty());
        assert(p.last() == pt1 as int && q.last() == pt2 as int);
        assert(sum_sq_diff(p.drop_last(), q.drop_last()) == 0);
        assert(sum_sq_diff(p, q) == (pt1 - pt2) * (pt1 - pt2));
        lemma_isqrt_square(pt1 - pt2);
    }
    if pt1 >= pt2 {
        pt1 - pt2
    } else {
        pt2 - pt1
    }
}

/// Euclidean distance of two two-dimensional points, rounded down.
pub fn euclidian_distance_2_d(pt1_x: i64, pt1_y: i64, pt2_x: i64, pt2_y: i64) -> (r: i64)
    requires
        -COORD_LIMIT <= pt1_x <= COORD_LIMIT,
        -COORD_LIMIT <= pt1_y <= COORD_LIMIT,
        -COORD_LIMIT <= pt2_x <= COORD_LIMIT,
        -COORD_LIMIT <= pt2_y <= COORD_LIMIT,
    ensures
        r == euclid_dist(seq![pt1_x as int, pt1_y as int], seq![pt2_x as int, pt2_y as int]),
        0 <= r < MAX_DISTANCE,
{
    let temp_x: i64 = pt2_x - pt1_x;
    let temp_y: i64 = pt2_y - pt1_y;
    proof {
        assert(0 <= (temp_x as int) * (temp_x as int) <= 4_000_000_000_000) by (nonlinear_arith)
            requires
                -2_000_000 <= temp_x as int <= 2_000_000,
        ;
        assert(0 <= (temp_y as int) * (temp_y as int) <= 4_000_000_000_000) by (nonlinear_arith)
            requires
                -2_000_000 <= temp_y as int <= 2_000_000,
        ;
    }
    let sq_x: i128 = temp_x as i128 * temp_x as i128;
    let sq_y: i128 = temp_y as i128 * temp_y as i128;
    let sum: u128 = (sq_x + sq_y) as u128;
    proof {
        let p = seq![pt1_x as int, pt1_y as int];
        let q = seq![pt2_x as int, pt2_y as int];
        assert(p.drop_last().drop_last() =~= Seq::<int>::empty());
        assert(q.drop_last().drop_last() =~= Seq::<int>::empty());
        assert(p.drop_last() =~= seq![pt1_x as int]);
        assert(q.drop_last() =~= seq![pt2_x as int]);
        assert(p.last() == pt1_y as int && q.last() == pt2_y as int);
        assert(p.drop_last().last() == pt1_x as int && q.drop_last().last() == pt2_x as int);
        assert((temp_x as int) * (temp_x as int) == (pt1_x - pt2_x) * (pt1_x - pt2_x))
            by (nonlinear_arith)
            requires
                temp_x as int == pt2_x as int - pt1_x as int,
        ;
        assert((temp_y as int) * (temp_y as int) == (pt1_y - pt2_y) * (pt1_y - pt2_y))
            by (nonlinear_arith)
            requires
                temp_y as int == pt2_y as int - pt1_y as int,
        ;
        assert(sum_sq_diff(p.drop_last().drop_last(), q.drop_last().drop_last()) == 0);
        assert(sum_sq_diff(p.drop_last(), q.drop_last()) == (pt1_x - pt2_x) * (pt1_x - pt2_x));
        assert(sum as int == sum_sq_diff(p, q));
    }
    let root: u128 = isqrt_u128(sum);
    proof {
        lemma_isqrt_below(sum as int, 3_000_000);
    }
    root as i64
}

/// Euclidean distance of two points with the same dimensionality, rounded
/// down. The caller guarantees the lengths match; a mismatch is a caller
/// bug, not a recoverable condition.
pub fn euclidian_distance_n_d(pt1: &Vec<i64>, pt2: &Vec<i64>) -> (r: i64)
    requires
        pt1@.len() == pt2@.len(),
        forall|i: int| 0 <= i < pt1@.len() ==> -COORD_LIMIT <= #[trigger] pt1@[i] <= COORD_LIMIT,
        forall|i: int| 0 <= i < pt2@.len() ==> -COORD_LIMIT <= #[trigger] pt2@[i] <= COORD_LIMIT,
    ensures
        r == euclid_dist(int_seq(pt1@), int_seq(pt2@)),
        0 <= r < MAX_DISTANCE,
{
    let num_dimensions = pt1.len();
    let mut sum: u128 = 0;
    let mut dimension: usize = 0;
    while dimension < num_dimensions
        invariant
            dimension <= num_dimensions,
            num_dimensions == pt1@.len() == pt2@.len(),
            forall|i: int| 0 <= i < pt1@.len() ==> -COORD_LIMIT <= #[trigger] pt1@[i] <= COORD_LIMIT,
            forall|i: int| 0 <= i < pt2@.len() ==> -COORD_LIMIT <= #[trigger] pt2@[i] <= COORD_LIMIT,
            sum as int == sum_sq_diff(
                int_seq(pt1@).take(dimension as int),
                int_seq(pt2@).take(dimension as int),
            ),
            sum as int <= (dimension as int) * 4_000_000_000_000,
        decreases num_dimensions - dimension,
    {
        let temp: i64 = pt2[dimension] - pt1[dimension];
        proof {
            assert(0 <= (temp as int) * (temp as int) <= 4_000_000_000_000) by (nonlinear_arith)
                requires
                    -2_000_000 <= temp as int <= 2_000_000,
            ;
        }
        let temp_sq: i128 = temp as i128 * temp as i128;
        proof {
            let p = int_seq(pt1@).take(dimension + 1);
            let q = int_seq(pt2@).take(dimension + 1);
            assert(p.drop_last() =~= int_seq(pt1@).take(dimension as int));
            assert(q.drop_last() =~= int_seq(pt2@).take(dimension as int));
            assert(p.last() == pt1@[dimension as int] as int);
            assert(q.last() == pt2@[dimension as int] as int);
            assert((temp as int) * (temp as int) == (p.last() - q.last()) * (p.last() - q.last()))
                by (nonlinear_arith)
                requires
                    temp as int == q.last() - p.last(),
            ;
            assert(usize::MAX as int * 4_000_000_000_000 < u128::MAX as int);
            vstd::arithmetic::mul::lemma_mul_inequality(
                dimension + 1,
                usize::MAX as int,
                4_000_000_000_000,
            );
        }
        sum = sum + (temp_sq as u128);
        dimension = dimension + 1;
    }
    proof {
        assert(int_seq(pt1@).take(num_dimensions as int) =~= int_seq(pt1@));
        assert(int_seq(pt2@).take(num_dimensions as int) =~= int_seq(pt2@));
        vstd::arithmetic::mul::lemma_mul_inequality(
            num_dimensions as int,
            usize::MAX as int,
            4_000_000_000_000,
        );
        assert(usize::MAX as int * 4_000_000_000_000 < (MAX_DISTANCE as int) * (
        MAX_DISTANCE as int)) by (nonlinear_arith)
            requires
                usize::MAX as int <= u64::MAX as int,
        ;
    }
    let root: u128 = isqrt_u128(sum);
    proof {
        lemma_isqrt_below(sum as int, MAX_DISTANCE as int);
    }
    root as i64
}

/// Count of positions where two equal-length byte sequences differ.
pub open spec fn hamming(a: Seq<u8>, b: Seq<u8>) -> int
    recommends
        a.len() == b.len(),
    decreases a.len(),
{
    if a.len() == 0 {
        0
    } else {
        hamming(a.drop_last(), b.drop_last()) + if a.last() == b.last() {
            0int
        } else {
            1int
        }
    }
}

/// Hamming distance of the byte representations of two strings; strings of
/// different lengths are reported as maximally distant.
pub fn hamming_distance(str1: &str, str2: &str) -> (r: usize)
    ensures
        str1.spec_bytes().len() != str2.spec_bytes().len() ==> r == usize::MAX,
        str1.spec_bytes().len() == str2.spec_bytes().len() ==> r == hamming(
            str1.spec_bytes(),
            str2.spec_bytes(),
        ),
{
    let str1_bytes = str1.as_bytes();
    let str2_bytes = str2.as_bytes();
    let len1 = str1_bytes.len();

    // The strings must be the same length.
    if len1 != str2_bytes.len() {
        return usize::MAX;
    }
    let mut distance: usize = 0;
    let mut i: usize = 0;
    while i < len1
        invariant
            i <= len1,
            len1 == str1_bytes@.len() == str2_bytes@.len(),
            str1_bytes@ == str1.spec_bytes(),
            str2_bytes@ == str2.spec_bytes(),
            distance == hamming(str1_bytes@.take(i as int), str2_bytes@.take(i as int)),
            distance <= i,
        decreases len1 - i,
    {
        proof {
            assert(str1_bytes@.take(i + 1).drop_last() =~= str1_bytes@.take(i as int));
            assert(str2_bytes@.take(i + 1).drop_last() =~= str2_bytes@.take(i as int));
        }
        if str1_bytes[i] != str2_bytes[i] {
            distance = distance + 1;
        }
        i = i + 1;
    }
    proof {
        assert(str1_bytes@.take(len1 as int) =~= str1_bytes@);
        assert(str2_bytes@.take(len1 as int) =~= str2_bytes@);
    }
    distance
}

/// Smallest of three values.
pub open spec fn min3(x: int, y: int, z: int) -> int {
    if x <= y && x <= z {
        x
    } else if y <= z {
        y
    } else {
        z
    }
}

/// Levenshtein edit distance between two byte sequences: the least number of
/// single-byte insertions, deletions and substitutions that turns one into
/// the other.
pub open spec fn edit_dist(a: Seq<u8>, b: Seq<u8>) -> int
    decreases a.len() + b.len(),
{
    if a.len() == 0 {
        b.len() as int
    } else if b.len() == 0 {
        a.len() as int
    } else {
        min3(
            edit_dist(a.drop_last(), b) + 1,
            edit_dist(a, b.drop_last()) + 1,
            edit_dist(a.drop_last(), b.drop_last()) + if a.last() == b.last() {
                0int
            } else {
                1int
            },
        )
    }
}

/// The edit distance is bounded by the summed lengths.
pub proof fn lemma_edit_dist_bounds(a: Seq<u8>, b: Seq<u8>)
    ensures
        0 <= edit_dist(a, b) <= a.len() + b.len(),
    decreases a.len() + b.len(),
{
    if a.len() > 0 && b.len() > 0 {
        lemma_edit_dist_bounds(a.drop_last(), b);
        lemma_edit_dist_bounds(a, b.drop_last());
        lemma_edit_dist_bounds(a.drop_last(), b.drop_last());
    }
}

/// The edit distance of two non-empty prefixes satisfies the dynamic
/// programming recurrence over the last characters.
proof fn lemma_edit_dist_step(a: Seq<u8>, b: Seq<u8>, i: int, j: int)
    requires
        0 <= i < a.len(),
        0 <= j < b.len(),
    ensures
        edit_dist(a.take(i + 1), b.take(j + 1)) == min3(
            edit_dist(a.take(i), b.take(j + 1)) + 1,
            edit_dist(a.take(i + 1), b.take(j)) + 1,
            edit_dist(a.take(i), b.take(j)) + if a[i] == b[j] {
                0int
            } else {
                1int
            },
        ),
{
    assert(a.take(i + 1).drop_last() =~= a.take(i));
    assert(b.take(j + 1).drop_last() =~= b.take(j));
    assert(a.take(i + 1).last() == a[i]);
    assert(b.take(j + 1).last() == b[j]);
}

/// Levenshtein distance of the byte representations of two strings.
pub fn levenshtein_distance(str1: &str, str2: &str) -> (r: usize)
    requires
        str1.spec_bytes().len() + str2.spec_bytes().len() < usize::MAX,
    ensures
        r == edit_dist(str1.spec_bytes(), str2.spec_bytes()),
{
    let a = str1.as_bytes();
    let b = str2.as_bytes();
    let m = a.len();
    let n = b.len();

    // Test for empty strings.
    if m == 0 {
        proof {
            assert(b@.take(n as int) =~= b@);
        }
        return n;
    }
    if n == 0 {
        proof {
            assert(a@.take(m as int) =~= a@);
        }
        return m;
    }
    // Row of edit distances from the empty prefix of `str1`: v0[j] = j.
    let mut v0: Vec<usize> = Vec::new();
    while v0.len() < n + 1
        invariant
            v0@.len() <= n + 1,
            n < usize::MAX,
            forall|x: int| 0 <= x < v0@.len() ==> #[trigger] v0@[x] == x,
        decreases n + 1 - v0@.len(),
    {
        let next = v0.len();
        v0.push(next);
    }
    let mut v1: Vec<usize> = Vec::new();
    while v1.len() < n + 1
        invariant
            v1@.len() <= n + 1,
            n < usize::MAX,
        decreases n + 1 - v1@.len(),
    {
        v1.push(0);
    }
    proof {
        assert forall|x: int| 0 <= x <= n implies #[trigger] edit_dist(
            a@.take(0),
            b@.take(x),
        ) == x by {
            assert(a@.take(0) =~= Seq::<u8>::empty());
            assert(b@.take(x).len() == x);
        }
    }
    let mut i: usize = 0;
    while i < m
        invariant
            i <= m,
            m == a@.len(),
            n == b@.len(),
            n >= 1,
            m + n < usize::MAX,
            v0@.len() == n + 1,
            v1@.len() == n + 1,
            forall|x: int|
                0 <= x <= n ==> #[trigger] v0@[x] == edit_dist(a@.take(i as int), b@.take(x)),
        decreases m - i,
    {
        v1.set(0, i + 1);
        proof {
            assert(b@.take(0) =~= Seq::<u8>::empty());
            assert(a@.take(i + 1).len() == i + 1);
            assert(edit_dist(a@.take(i + 1), b@.take(0)) == i + 1);
        }
        let mut j: usize = 0;
        while j < n
            invariant
                j <= n,
                i < m,
                m == a@.len(),
                n == b@.len(),
                m + n < usize::MAX,
                v0@.len() == n + 1,
                v1@.len() == n + 1,
                forall|x: int|
                    0 <= x <= n ==> #[trigger] v0@[x] == edit_dist(a@.take(i as int), b@.take(x)),
                forall|x: int|
                    0 <= x <= j ==> #[trigger] v1@[x] == edit_dist(a@.take(i + 1), b@.take(x)),
            decreases n - j,
        {
            proof {
                lemma_edit_dist_bounds(a@.take(i as int), b@.take(j + 1));
                lemma_edit_dist_bounds(a@.take(i + 1), b@.take(j as int));
                lemma_edit_dist_bounds(a@.take(i as int), b@.take(j as int));
                lemma_edit_dist_step(a@, b@, i as int, j as int);
            }
            let deletion = v0[j + 1] + 1;
            let insertion = v1[j] + 1;
            let substitution = if a[i] == b[j] {
                v0[j]
            } else {
                v0[j] + 1
            };
            let mut costs: Vec<usize> = Vec::new();
            costs.push(deletion);
            costs.push(insertion);
            costs.push(substitution);
            let best = crate::statistics::min_usize(&costs);
            proof {
                assert(costs@[0] == deletion && costs@[1] == insertion && costs@[2]
                    == substitution);
                assert(best == deletion || best == insertion || best == substitution);
                assert(best as int == min3(
                    deletion as int,
                    insertion as int,
                    substitution as int,
                ));
                assert(min3(deletion as int, insertion as int, substitution as int) == edit_dist(
                    a@.take(i + 1),
                    b@.take(j + 1),
                ));
            }
            v1.set(j + 1, best);
            j = j + 1;
        }
        // Copy v1 to v0.
        let temp_v = v0;
        v0 = v1;
        v1 = temp_v;
        i = i + 1;
    }
    proof {
        assert(a@.take(m as int) =~= a@);
        assert(b@.take(n as int) =~= b@);
    }
    v0[n]
}

} // verus!
