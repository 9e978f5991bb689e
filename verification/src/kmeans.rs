//! K-means clustering over fixed-point integer coordinates.
//!
//! A dataset is a flat array of `num_samples * num_dimensions` coordinates;
//! a centroid set is a flat array of `k * num_dimensions` coordinates. The
//! engine assigns every sample to its nearest centroid (first centroid wins
//! ties), then repeats an update step — recompute each centroid as the mean
//! of its samples, then relocate samples whose distance to some new centroid
//! is strictly smaller than their recorded error — until the average error
//! drops to the tolerance, the iteration budget runs out, or no sample moved.
//!
//! The whole algorithm has a specification-level model (`kmeans_model`); the
//! public functions return exactly what the model says.

use crate::distance::euclid_dist;
use crate::distance::int_seq;
use crate::statistics::sum_ints;
use crate::statistics::trunc_div;
use vstd::prelude::*;

verus! {

/// One snapshot of the engine state: the flat centroid array, each sample's
/// cluster tag, and each sample's recorded error (the distance measured when
/// the sample was last assigned or relocated).
#[verifier::ext_equal]
pub struct KmState {
    pub centroids: Seq<int>,
    pub tags: Seq<int>,
    pub errors: Seq<int>,
}

/// The `d`-wide window of flat array `s` that belongs to item `i`.
pub open spec fn window(s: Seq<int>, d: int, i: int) -> Seq<int> {
    s.subrange(i * d, i * d + d)
}

/// Distance from sample `i` of the dataset to centroid `c`.
pub open spec fn sample_dist(data: Seq<int>, cents: Seq<int>, d: int, i: int, c: int) -> int {
    euclid_dist(window(data, d, i), window(cents, d, c))
}

/// Error of sample `i` after testing centroids `0..c` in order, keeping the
/// strictly smallest distance (so the first centroid wins ties).
pub open spec fn assign_err(data: Seq<int>, cents: Seq<int>, d: int, i: int, c: int) -> int
    decreases c,
{
    if c <= 1 {
        sample_dist(data, cents, d, i, 0)
    } else {
        let prev = assign_err(data, cents, d, i, c - 1);
        let dc = sample_dist(data, cents, d, i, c - 1);
        if dc < prev {
            dc
        } else {
            prev
        }
    }
}

/// Tag of sample `i` after testing centroids `0..c` in order.
pub open spec fn assign_tag(data: Seq<int>, cents: Seq<int>, d: int, i: int, c: int) -> int
    decreases c,
{
    if c <= 1 {
        0
    } else {
        let dc = sample_dist(data, cents, d, i, c - 1);
        if dc < assign_err(data, cents, d, i, c - 1) {
            c - 1
        } else {
            assign_tag(data, cents, d, i, c - 1)
        }
    }
}

/// State after the assignment step: every sample tagged with its nearest
/// centroid and its distance recorded as the error.
pub open spec fn assign_state(data: Seq<int>, cents: Seq<int>, d: int, k: int, n: int) -> KmState {
    KmState {
        centroids: cents,
        tags: Seq::new(n as nat, |i: int| assign_tag(data, cents, d, i, k)),
        errors: Seq::new(n as nat, |i: int| assign_err(data, cents, d, i, k)),
    }
}

/// How many of the first `upto` samples are tagged `c`.
pub open spec fn cluster_size(tags: Seq<int>, c: int, upto: int) -> int
    decreases upto,
{
    if upto <= 0 {
        0
    } else {
        cluster_size(tags, c, upto - 1) + if tags[upto - 1] == c {
            1int
        } else {
            0int
        }
    }
}

/// Sum of coordinate `j` over the first `upto` samples tagged `c`.
pub open spec fn cluster_dim_sum(
    data: Seq<int>,
    tags: Seq<int>,
    d: int,
    c: int,
    j: int,
    upto: int,
) -> int
    decreases upto,
{
    if upto <= 0 {
        0
    } else {
        cluster_dim_sum(data, tags, d, c, j, upto - 1) + if tags[upto - 1] == c {
            data[(upto - 1) * d + j]
        } else {
            0int
        }
    }
}

/// Centroids recomputed as the per-cluster means of the currently assigned
/// samples; a cluster with no samples keeps its previous centroid, so no
/// division by zero can arise from an empty cluster.
pub open spec fn updated_centroids(
    data: Seq<int>,
    tags: Seq<int>,
    old_cents: Seq<int>,
    d: int,
    k: int,
    n: int,
) -> Seq<int> {
    Seq::new(
        (k * d) as nat,
        |idx: int|
            {
                let c = idx / d;
                let j = idx % d;
                if cluster_size(tags, c, n) == 0 {
                    old_cents[idx]
                } else {
                    trunc_div(cluster_dim_sum(data, tags, d, c, j, n), cluster_size(tags, c, n))
                }
            },
    )
}

/// Error of sample `i` after the relocation pass has tested centroids
/// `0..c`, starting from recorded error `e0`; the error only ever shrinks.
pub open spec fn reloc_err(data: Seq<int>, cents: Seq<int>, d: int, i: int, c: int, e0: int) -> int
    decreases c,
{
    if c <= 0 {
        e0
    } else {
        let prev = reloc_err(data, cents, d, i, c - 1, e0);
        let dc = sample_dist(data, cents, d, i, c - 1);
        if dc < prev {
            dc
        } else {
            prev
        }
    }
}

/// Tag of sample `i` after the relocation pass has tested centroids `0..c`,
/// starting from tag `t0` and recorded error `e0`.
pub open spec fn reloc_tag(
    data: Seq<int>,
    cents: Seq<int>,
    d: int,
    i: int,
    c: int,
    t0: int,
    e0: int,
) -> int
    decreases c,
{
    if c <= 0 {
        t0
    } else {
        let dc = sample_dist(data, cents, d, i, c - 1);
        if dc < reloc_err(data, cents, d, i, c - 1, e0) {
            c - 1
        } else {
            reloc_tag(data, cents, d, i, c - 1, t0, e0)
        }
    }
}

/// How many strict improvements the relocation pass records for sample `i`
/// while testing centroids `0..c`.
pub open spec fn reloc_moves(
    data: Seq<int>,
    cents: Seq<int>,
    d: int,
    i: int,
    c: int,
    e0: int,
) -> int
    decreases c,
{
    if c <= 0 {
        0
    } else {
        reloc_moves(data, cents, d, i, c - 1, e0) + if sample_dist(data, cents, d, i, c - 1)
            < reloc_err(data, cents, d, i, c - 1, e0) {
            1int
        } else {
            0int
        }
    }
}

/// Total relocations over the first `upto` samples of one update step, where
/// `errors0` holds the recorded errors before the pass.
pub open spec fn total_moves(
    data: Seq<int>,
    cents: Seq<int>,
    d: int,
    k: int,
    errors0: Seq<int>,
    upto: int,
) -> int
    decreases upto,
{
    if upto <= 0 {
        0
    } else {
        total_moves(data, cents, d, k, errors0, upto - 1) + reloc_moves(
            data,
            cents,
            d,
            upto - 1,
            k,
            errors0[upto - 1],
        )
    }
}

/// One full update step: recompute the centroids from the current tags,
/// then run the relocation pass for every sample against the new centroids.
pub open spec fn update_step(data: Seq<int>, d: int, k: int, n: int, st: KmState) -> KmState {
    let cents2 = updated_centroids(data, st.tags, st.centroids, d, k, n);
    KmState {
        centroids: cents2,
        tags: Seq::new(
            n as nat,
            |i: int| reloc_tag(data, cents2, d, i, k, st.tags[i], st.errors[i]),
        ),
        errors: Seq::new(n as nat, |i: int| reloc_err(data, cents2, d, i, k, st.errors[i])),
    }
}

/// Relocation count of one update step from state `st`.
pub open spec fn step_moves(data: Seq<int>, d: int, k: int, n: int, st: KmState) -> int {
    total_moves(
        data,
        updated_centroids(data, st.tags, st.centroids, d, k, n),
        d,
        k,
        st.errors,
        n,
    )
}

/// Average recorded error of a state, rounded towards zero.
pub open spec fn state_avg_error(st: KmState, n: int) -> int {
    trunc_div(sum_ints(st.errors), n)
}

/// The update loop, starting its `iter`-th pass from state `st`: run one
/// update step, then continue while the average error still exceeds
/// `max_error`, the iteration budget is not exhausted, and at least one
/// sample moved. The first pass always runs.
pub open spec fn run_steps(
    data: Seq<int>,
    d: int,
    k: int,
    n: int,
    max_error: int,
    max_iters: int,
    st: KmState,
    iter: int,
) -> (KmState, int)
    decreases max_iters - iter,
{
    let st1 = update_step(data, d, k, n, st);
    let avg = state_avg_error(st1, n);
    let moves = step_moves(data, d, k, n, st);
    if avg > max_error && iter + 1 < max_iters && moves > 0 {
        run_steps(data, d, k, n, max_error, max_iters, st1, iter + 1)
    } else {
        (st1, avg)
    }
}

/// Final state and average error of the whole engine on a dataset of `n`
/// samples (for `n >= 2`): the assignment step followed by the update loop.
pub open spec fn kmeans_model(
    data: Seq<int>,
    d: int,
    k: int,
    max_error: int,
    max_iters: int,
    cents0: Seq<int>,
    n: int,
) -> (KmState, int) {
    run_steps(data, d, k, n, max_error, max_iters, assign_state(data, cents0, d, k, n), 0)
}

/// A sequence of cluster tags as mathematical integers.
pub open spec fn tag_ints(s: Seq<usize>) -> Seq<int> {
    s.map(|i: int, v: usize| v as int)
}

/// A flat index `c * d + j` with `0 <= j < d` decomposes uniquely.
proof fn lemma_flat_index(c: int, j: int, d: int)
    requires
        d >= 1,
        0 <= j < d,
        0 <= c,
    ensures
        (c * d + j) / d == c,
        (c * d + j) % d == j,
{
    vstd::arithmetic::div_mod::lemma_fundamental_div_mod_converse(c * d + j, d, c, j);
}

/// Vector of `n` zero tags.
fn zero_usize_vec(n: usize) -> (r: Vec<usize>)
    ensures
        r@.len() == n,
        forall|i: int| 0 <= i < n ==> r@[i] == 0,
{
    let mut r: Vec<usize> = Vec::new();
    while r.len() < n
        invariant
            r@.len() <= n,
            forall|i: int| 0 <= i < r@.len() ==> r@[i] == 0,
        decreases n - r@.len(),
    {
        r.push(0);
    }
    r
}

/// Vector of `n` zero errors.
fn zero_i64_vec(n: usize) -> (r: Vec<i64>)
    ensures
        r@.len() == n,
        forall|i: int| 0 <= i < n ==> r@[i] == 0,
{
    let mut r: Vec<i64> = Vec::new();
    while r.len() < n
        invariant
            r@.len() <= n,
            forall|i: int| 0 <= i < r@.len() ==> r@[i] == 0,
        decreases n - r@.len(),
    {
        r.push(0);
    }
    r
}

/// Vector of `n` zero accumulators.
fn zero_i128_vec(n: usize) -> (r: Vec<i128>)
    ensures
        r@.len() == n,
        forall|i: int| 0 <= i < n ==> r@[i] == 0,
{
    let mut r: Vec<i128> = Vec::new();
    while r.len() < n
        invariant
            r@.len() <= n,
            forall|i: int| 0 <= i < r@.len() ==> r@[i] == 0,
        decreases n - r@.len(),
    {
        r.push(0);
    }
    r
}

/// Copy of the `d`-wide window of `v` starting at `start`.
fn copy_window(v: &Vec<i64>, start: usize, d: usize) -> (r: Vec<i64>)
    requires
        start + d <= v@.len(),
    ensures
        r@ == v@.subrange(start as int, start as int + d as int),
{
    let v_len = v.len();
    let mut r: Vec<i64> = Vec::new();
    let mut j: usize = 0;
    while j < d
        invariant
            j <= d,
            start + d <= v_len == v@.len(),
            r@ == v@.subrange(start as int, start as int + j as int),
        decreases d - j,
    {
        r.push(v[start + j]);
        proof {
            assert(r@ =~= v@.subrange(start as int, start as int + (j + 1) as int));
        }
        j = j + 1;
    }
    r
}

/// Distance from sample `i` of the flat dataset to centroid `c` of the flat
/// centroid array.
fn window_dist(data: &Vec<i64>, i: usize, cents: &Vec<i64>, c: usize, d: usize) -> (r: i64)
    requires
        d >= 1,
        (i as int) * (d as int) + d <= data@.len(),
        (c as int) * (d as int) + d <= cents@.len(),
        forall|x: int|
            0 <= x < data@.len() ==> -crate::distance::COORD_LIMIT <= #[trigger] data@[x]
                <= crate::distance::COORD_LIMIT,
        forall|x: int|
            0 <= x < cents@.len() ==> -crate::distance::COORD_LIMIT <= #[trigger] cents@[x]
                <= crate::distance::COORD_LIMIT,
    ensures
        r == sample_dist(int_seq(data@), int_seq(cents@), d as int, i as int, c as int),
        0 <= r < crate::distance::MAX_DISTANCE,
{
    let data_len = data.len();
    let cents_len = cents.len();
    let sw = copy_window(data, i * d, d);
    let cw = copy_window(cents, c * d, d);
    proof {
        assert(int_seq(sw@) =~= window(int_seq(data@), d as int, i as int));
        assert(int_seq(cw@) =~= window(int_seq(cents@), d as int, c as int));
    }
    crate::distance::euclidian_distance_n_d(&sw, &cw)
}

/// Mean of a cluster accumulator, rounded towards zero; the result stays in
/// the coordinate range because the accumulator sums `size` coordinates.
fn mean_of_sum(sum: i128, size: usize) -> (r: i64)
    requires
        size >= 1,
        -(size as int) * (crate::distance::COORD_LIMIT as int) <= sum as int <= (size as int) * (
        crate::distance::COORD_LIMIT as int),
    ensures
        r as int == trunc_div(sum as int, size as int),
        -crate::distance::COORD_LIMIT <= r <= crate::distance::COORD_LIMIT,
{
    if sum >= 0 {
        let q: u128 = (sum as u128) / (size as u128);
        proof {
            vstd::arithmetic::div_mod::lemma_div_is_ordered(
                sum as int,
                (size as int) * (crate::distance::COORD_LIMIT as int),
                size as int,
            );
            vstd::arithmetic::div_mod::lemma_div_multiples_vanish(
                crate::distance::COORD_LIMIT as int,
                size as int,
            );
        }
        q as i64
    } else {
        let q: u128 = ((-sum) as u128) / (size as u128);
        proof {
            vstd::arithmetic::div_mod::lemma_div_is_ordered(
                -(sum as int),
                (size as int) * (crate::distance::COORD_LIMIT as int),
                size as int,
            );
            vstd::arithmetic::div_mod::lemma_div_multiples_vanish(
                crate::distance::COORD_LIMIT as int,
                size as int,
            );
        }
        (-(q as i128)) as i64
    }
}

/// Assignment step: tag every sample with its nearest centroid (the first
/// centroid wins ties) and record the winning distance as the error.
fn assign_all(
    data: &Vec<i64>,
    d: usize,
    k: usize,
    cents: &Vec<i64>,
    tags: &mut Vec<usize>,
    errors: &mut Vec<i64>,
)
    requires
        d >= 1,
        k >= 1,
        data@.len() == old(tags)@.len() * d,
        cents@.len() == k * d,
        old(errors)@.len() == old(tags)@.len(),
        forall|x: int|
            0 <= x < data@.len() ==> -crate::distance::COORD_LIMIT <= #[trigger] data@[x]
                <= crate::distance::COORD_LIMIT,
        forall|x: int|
            0 <= x < cents@.len() ==> -crate::distance::COORD_LIMIT <= #[trigger] cents@[x]
                <= crate::distance::COORD_LIMIT,
    ensures
        final(tags)@.len() == old(tags)@.len(),
        final(errors)@.len() == old(tags)@.len(),
        forall|x: int|
            0 <= x < final(tags)@.len() ==> #[trigger] final(tags)@[x] as int == assign_tag(
                int_seq(data@),
                int_seq(cents@),
                d as int,
                x,
                k as int,
            ),
        forall|x: int|
            0 <= x < final(tags)@.len() ==> #[trigger] final(errors)@[x] as int == assign_err(
                int_seq(data@),
                int_seq(cents@),
                d as int,
                x,
                k as int,
            ),
        forall|x: int| 0 <= x < final(tags)@.len() ==> #[trigger] final(tags)@[x] < k,
        forall|x: int|
            0 <= x < final(tags)@.len() ==> 0 <= #[trigger] final(errors)@[x] < crate::distance::MAX_DISTANCE,
{
    let n = tags.len();
    let ghost di = int_seq(data@);
    let ghost ci = int_seq(cents@);
    let mut i: usize = 0;
    while i < n
        invariant
            i <= n,
            d >= 1,
            k >= 1,
            n == tags@.len() == errors@.len(),
            data@.len() == n * d,
            cents@.len() == k * d,
            di == int_seq(data@),
            ci == int_seq(cents@),
            forall|x: int|
                0 <= x < data@.len() ==> -crate::distance::COORD_LIMIT <= #[trigger] data@[x]
                    <= crate::distance::COORD_LIMIT,
            forall|x: int|
                0 <= x < cents@.len() ==> -crate::distance::COORD_LIMIT <= #[trigger] cents@[x]
                    <= crate::distance::COORD_LIMIT,
            forall|x: int|
                0 <= x < i ==> #[trigger] tags@[x] as int == assign_tag(di, ci, d as int, x, k as int),
            forall|x: int|
                0 <= x < i ==> #[trigger] errors@[x] as int == assign_err(
                    di,
                    ci,
                    d as int,
                    x,
                    k as int,
                ),
            forall|x: int| 0 <= x < i ==> #[trigger] tags@[x] < k,
            forall|x: int|
                0 <= x < i ==> 0 <= #[trigger] errors@[x] < crate::distance::MAX_DISTANCE,
        decreases n - i,
    {
        let mut c: usize = 0;
        while c < k
            invariant
                c <= k,
                i < n,
                d >= 1,
                k >= 1,
                n == tags@.len() == errors@.len(),
                data@.len() == n * d,
                cents@.len() == k * d,
                di == int_seq(data@),
                ci == int_seq(cents@),
                forall|x: int|
                    0 <= x < data@.len() ==> -crate::distance::COORD_LIMIT <= #[trigger] data@[x]
                        <= crate::distance::COORD_LIMIT,
                forall|x: int|
                    0 <= x < cents@.len() ==> -crate::distance::COORD_LIMIT <= #[trigger] cents@[x]
                        <= crate::distance::COORD_LIMIT,
                forall|x: int|
                    0 <= x < i ==> #[trigger] tags@[x] as int == assign_tag(
                        di,
                        ci,
                        d as int,
                        x,
                        k as int,
                    ),
                forall|x: int|
                    0 <= x < i ==> #[trigger] errors@[x] as int == assign_err(
                        di,
                        ci,
                        d as int,
                        x,
                        k as int,
                    ),
                forall|x: int| 0 <= x < i ==> #[trigger] tags@[x] < k,
                forall|x: int|
                    0 <= x < i ==> 0 <= #[trigger] errors@[x] < crate::distance::MAX_DISTANCE,
                c >= 1 ==> tags@[i as int] as int == assign_tag(di, ci, d as int, i as int, c as int),
                c >= 1 ==> errors@[i as int] as int == assign_err(
                    di,
                    ci,
                    d as int,
                    i as int,
                    c as int,
                ),
                c >= 1 ==> tags@[i as int] < k,
                c >= 1 ==> 0 <= errors@[i as int] < crate::distance::MAX_DISTANCE,
            decreases k - c,
        {
            proof {
                vstd::arithmetic::mul::lemma_mul_inequality(i + 1, n as int, d as int);
                vstd::arithmetic::mul::lemma_mul_inequality(c + 1, k as int, d as int);
                assert((i + 1) * (d as int) == (i as int) * (d as int) + d) by (nonlinear_arith);
                assert((c + 1) * (d as int) == (c as int) * (d as int) + d) by (nonlinear_arith);
            }
            let dist = window_dist(data, i, cents, c, d);
            if c == 0 || dist < errors[i] {
                tags.set(i, c);
                errors.set(i, dist);
            }
            c = c + 1;
        }
        i = i + 1;
    }
}

/// Relocation pass of one update step: test every sample against every
/// centroid in order and move it whenever the distance is strictly smaller
/// than its recorded error, counting every such move.
fn relocate_all(
    data: &Vec<i64>,
    d: usize,
    k: usize,
    cents: &Vec<i64>,
    tags: &mut Vec<usize>,
    errors: &mut Vec<i64>,
) -> (moves: u128)
    requires
        d >= 1,
        k >= 1,
        data@.len() == old(tags)@.len() * d,
        cents@.len() == k * d,
        old(errors)@.len() == old(tags)@.len(),
        forall|x: int|
            0 <= x < data@.len() ==> -crate::distance::COORD_LIMIT <= #[trigger] data@[x]
                <= crate::distance::COORD_LIMIT,
        forall|x: int|
            0 <= x < cents@.len() ==> -crate::distance::COORD_LIMIT <= #[trigger] cents@[x]
                <= crate::distance::COORD_LIMIT,
        forall|x: int| 0 <= x < old(tags)@.len() ==> #[trigger] old(tags)@[x] < k,
        forall|x: int|
            0 <= x < old(tags)@.len() ==> 0 <= #[trigger] old(errors)@[x]
                < crate::distance::MAX_DISTANCE,
    ensures
        final(tags)@.len() == old(tags)@.len(),
        final(errors)@.len() == old(tags)@.len(),
        forall|x: int|
            0 <= x < final(tags)@.len() ==> #[trigger] final(tags)@[x] as int == reloc_tag(
                int_seq(data@),
                int_seq(cents@),
                d as int,
                x,
                k as int,
                old(tags)@[x] as int,
                old(errors)@[x] as int,
            ),
        forall|x: int|
            0 <= x < final(tags)@.len() ==> #[trigger] final(errors)@[x] as int == reloc_err(
                int_seq(data@),
                int_seq(cents@),
                d as int,
                x,
                k as int,
                old(errors)@[x] as int,
            ),
        forall|x: int| 0 <= x < final(tags)@.len() ==> #[trigger] final(tags)@[x] < k,
        forall|x: int|
            0 <= x < final(tags)@.len() ==> 0 <= #[trigger] final(errors)@[x] < crate::distance::MAX_DISTANCE,
        moves as int == total_moves(
            int_seq(data@),
            int_seq(cents@),
            d as int,
            k as int,
            int_seq(old(errors)@),
            old(tags)@.len() as int,
        ),
{
    let n = tags.len();
    let ghost di = int_seq(data@);
    let ghost ci = int_seq(cents@);
    let ghost tags0 = tags@;
    let ghost errors0 = int_seq(errors@);
    let mut moves: u128 = 0;
    let mut i: usize = 0;
    while i < n
        invariant
            i <= n,
            d >= 1,
            k >= 1,
            n == tags@.len() == errors@.len() == tags0.len() == errors0.len(),
            data@.len() == n * d,
            cents@.len() == k * d,
            di == int_seq(data@),
            ci == int_seq(cents@),
            forall|x: int|
                0 <= x < data@.len() ==> -crate::distance::COORD_LIMIT <= #[trigger] data@[x]
                    <= crate::distance::COORD_LIMIT,
            forall|x: int|
                0 <= x < cents@.len() ==> -crate::distance::COORD_LIMIT <= #[trigger] cents@[x]
                    <= crate::distance::COORD_LIMIT,
            forall|x: int| 0 <= x < n ==> #[trigger] tags0[x] < k,
            forall|x: int| 0 <= x < n ==> 0 <= #[trigger] errors0[x] < crate::distance::MAX_DISTANCE,
            forall|x: int| i <= x < n ==> #[trigger] tags@[x] == tags0[x],
            forall|x: int| i <= x < n ==> #[trigger] errors@[x] as int == errors0[x],
            forall|x: int|
                0 <= x < i ==> #[trigger] tags@[x] as int == reloc_tag(
                    di,
                    ci,
                    d as int,
                    x,
                    k as int,
                    tags0[x] as int,
                    errors0[x] as int,
                ),
            forall|x: int|
                0 <= x < i ==> #[trigger] errors@[x] as int == reloc_err(
                    di,
                    ci,
                    d as int,
                    x,
                    k as int,
                    errors0[x],
                ),
            forall|x: int| 0 <= x < i ==> #[trigger] tags@[x] < k,
            forall|x: int|
                0 <= x < i ==> 0 <= #[trigger] errors@[x] < crate::distance::MAX_DISTANCE,
            moves as int == total_moves(di, ci, d as int, k as int, errors0, i as int),
            0 <= moves as int <= (i as int) * (k as int),
        decreases n - i,
    {
        let ghost t0 = tags0[i as int] as int;
        let ghost e0 = errors0[i as int];
        let mut c: usize = 0;
        while c < k
            invariant
                c <= k,
                i < n,
                d >= 1,
                k >= 1,
                n == tags@.len() == errors@.len() == tags0.len() == errors0.len(),
                data@.len() == n * d,
                cents@.len() == k * d,
                di == int_seq(data@),
                ci == int_seq(cents@),
                t0 == tags0[i as int] as int,
                e0 == errors0[i as int],
                0 <= t0 < k,
                0 <= e0 < crate::distance::MAX_DISTANCE,
                forall|x: int|
                    0 <= x < data@.len() ==> -crate::distance::COORD_LIMIT <= #[trigger] data@[x]
                        <= crate::distance::COORD_LIMIT,
                forall|x: int|
                    0 <= x < cents@.len() ==> -crate::distance::COORD_LIMIT <= #[trigger] cents@[x]
                        <= crate::distance::COORD_LIMIT,
                forall|x: int| 0 <= x < n ==> #[trigger] tags0[x] < k,
                forall|x: int|
                    0 <= x < n ==> 0 <= #[trigger] errors0[x] < crate::distance::MAX_DISTANCE,
                forall|x: int| i < x < n ==> #[trigger] tags@[x] == tags0[x],
                forall|x: int| i < x < n ==> #[trigger] errors@[x] as int == errors0[x],
                forall|x: int|
                    0 <= x < i ==> #[trigger] tags@[x] as int == reloc_tag(
                        di,
                        ci,
                        d as int,
                        x,
                        k as int,
                        tags0[x] as int,
                        errors0[x] as int,
                    ),
                forall|x: int|
                    0 <= x < i ==> #[trigger] errors@[x] as int == reloc_err(
                        di,
                        ci,
                        d as int,
                        x,
                        k as int,
                        errors0[x],
                    ),
                forall|x: int| 0 <= x < i ==> #[trigger] tags@[x] < k,
                forall|x: int|
                    0 <= x < i ==> 0 <= #[trigger] errors@[x] < crate::distance::MAX_DISTANCE,
                tags@[i as int] as int == reloc_tag(di, ci, d as int, i as int, c as int, t0, e0),
                errors@[i as int] as int == reloc_err(di, ci, d as int, i as int, c as int, e0),
                tags@[i as int] < k,
                0 <= errors@[i as int] < crate::distance::MAX_DISTANCE,
                moves as int == total_moves(di, ci, d as int, k as int, errors0, i as int)
                    + reloc_moves(di, ci, d as int, i as int, c as int, e0),
                0 <= moves as int <= (i as int) * (k as int) + c as int,
            decreases k - c,
        {
            proof {
                vstd::arithmetic::mul::lemma_mul_inequality(i + 1, n as int, d as int);
                vstd::arithmetic::mul::lemma_mul_inequality(c + 1, k as int, d as int);
                assert((i + 1) * (d as int) == (i as int) * (d as int) + d) by (nonlinear_arith);
                assert((c + 1) * (d as int) == (c as int) * (d as int) + d) by (nonlinear_arith);
                vstd::arithmetic::mul::lemma_mul_inequality(i as int, n as int, k as int);
                vstd::arithmetic::mul::lemma_mul_inequality(n as int, u64::MAX as int, k as int);
                vstd::arithmetic::mul::lemma_mul_inequality(k as int, u64::MAX as int, u64::MAX as int);
                assert((u64::MAX as int) * (u64::MAX as int) < u128::MAX as int) by (nonlinear_arith);
            }
            let dist = window_dist(data, i, cents, c, d);
            if dist < errors[i] {
                tags.set(i, c);
                errors.set(i, dist);
                moves = moves + 1;
            }
            c = c + 1;
        }
        proof {
            assert(total_moves(di, ci, d as int, k as int, errors0, i + 1) == total_moves(
                di,
                ci,
                d as int,
                k as int,
                errors0,
                i as int,
            ) + reloc_moves(di, ci, d as int, i as int, k as int, e0));
            vstd::arithmetic::mul::lemma_mul_inequality(i as int, n as int, k as int);
            assert((i as int) * (k as int) + (k as int) == (i + 1) * (k as int)) by (nonlinear_arith);
        }
        i = i + 1;
    }
    moves
}

/// A per-cluster coordinate sum is bounded by the cluster size times the
/// coordinate limit, and the cluster size by the number of samples seen.
proof fn lemma_cluster_dim_sum_bound(
    data: Seq<int>,
    tags: Seq<int>,
    d: int,
    c: int,
    j: int,
    upto: int,
    m: int,
)
    requires
        d >= 1,
        0 <= j < d,
        m >= 0,
        0 <= upto,
        upto * d <= data.len(),
        forall|x: int| 0 <= x < data.len() ==> -m <= #[trigger] data[x] <= m,
    ensures
        0 <= cluster_size(tags, c, upto) <= upto,
        -(cluster_size(tags, c, upto) * m) <= cluster_dim_sum(data, tags, d, c, j, upto)
            <= cluster_size(tags, c, upto) * m,
    decreases upto,
{
    if upto > 0 {
        assert((upto - 1) * d == upto * d - d) by (nonlinear_arith);
        lemma_cluster_dim_sum_bound(data, tags, d, c, j, upto - 1, m);
        let sz = cluster_size(tags, c, upto - 1);
        if tags[upto - 1] == c {
            assert(0 <= (upto - 1) * d + j < upto * d) by (nonlinear_arith)
                requires
                    d >= 1 && 0 <= j < d && upto >= 1,
            ;
            assert((sz + 1) * m == sz * m + m) by (nonlinear_arith);
        }
    }
}

/// Update step, first half: recompute every centroid as the mean of the
/// samples currently tagged with it; a cluster with no samples keeps its
/// previous centroid.
fn recompute_centroids(
    data: &Vec<i64>,
    d: usize,
    k: usize,
    tags: &Vec<usize>,
    cents: &mut Vec<i64>,
)
    requires
        d >= 1,
        k >= 1,
        data@.len() == tags@.len() * d,
        old(cents)@.len() == k * d,
        forall|x: int|
            0 <= x < data@.len() ==> -crate::distance::COORD_LIMIT <= #[trigger] data@[x]
                <= crate::distance::COORD_LIMIT,
        forall|x: int|
            0 <= x < old(cents)@.len() ==> -crate::distance::COORD_LIMIT <= #[trigger] old(cents)@[x] <= crate::distance::COORD_LIMIT,
        forall|x: int| 0 <= x < tags@.len() ==> #[trigger] tags@[x] < k,
    ensures
        final(cents)@.len() == k * d,
        int_seq(final(cents)@) == updated_centroids(
            int_seq(data@),
            tag_ints(tags@),
            int_seq(old(cents)@),
            d as int,
            k as int,
            tags@.len() as int,
        ),
        forall|x: int|
            0 <= x < final(cents)@.len() ==> -crate::distance::COORD_LIMIT <= #[trigger] final(cents)@[x] <= crate::distance::COORD_LIMIT,
{
    let n = tags.len();
    let kd = cents.len();
    let data_len = data.len();
    let ghost di = int_seq(data@);
    let ghost ti = tag_ints(tags@);
    let ghost ci0 = int_seq(cents@);
    let mut acc = zero_i128_vec(kd);
    let mut sizes = zero_usize_vec(k);
    proof {
        assert forall|c: int, j2: int|
            0 <= c < k && 0 <= j2 < d implies acc@[c * (d as int) + j2] as int
            == #[trigger] cluster_dim_sum(di, ti, d as int, c, j2, 0) by {
            assert(0 <= c * (d as int) + j2 < kd) by (nonlinear_arith)
                requires
                    0 <= c < k as int && 0 <= j2 < d as int && kd == (k as int) * (d as int),
            ;
        }
    }
    let mut i: usize = 0;
    while i < n
        invariant
            i <= n,
            d >= 1,
            k >= 1,
            n == tags@.len(),
            data@.len() == n * d,
            data@.len() == data_len,
            kd == k * d,
            kd == cents@.len(),
            acc@.len() == kd,
            sizes@.len() == k,
            di == int_seq(data@),
            ti == tag_ints(tags@),
            forall|x: int|
                0 <= x < data@.len() ==> -crate::distance::COORD_LIMIT <= #[trigger] data@[x]
                    <= crate::distance::COORD_LIMIT,
            forall|x: int| 0 <= x < n ==> #[trigger] tags@[x] < k,
            forall|c: int|
                0 <= c < k ==> #[trigger] sizes@[c] as int == cluster_size(ti, c, i as int),
            forall|c: int| 0 <= c < k ==> #[trigger] sizes@[c] <= i,
            forall|c: int, j: int|
                0 <= c < k && 0 <= j < d ==> acc@[c * (d as int) + j] as int
                    == #[trigger] cluster_dim_sum(di, ti, d as int, c, j, i as int),
        decreases n - i,
    {
        let t = tags[i];
        let st = sizes[t];
        sizes.set(t, st + 1);
        let ghost acc_before = acc@;
        let mut j: usize = 0;
        while j < d
            invariant
                j <= d,
                i < n,
                d >= 1,
                k >= 1,
                n == tags@.len(),
                data@.len() == n * d,
                data@.len() == data_len,
                kd == k * d,
                acc@.len() == kd,
                sizes@.len() == k,
                di == int_seq(data@),
                ti == tag_ints(tags@),
                t == tags@[i as int],
                t < k,
                ti[i as int] == t as int,
                forall|x: int|
                    0 <= x < data@.len() ==> -crate::distance::COORD_LIMIT <= #[trigger] data@[x]
                        <= crate::distance::COORD_LIMIT,
                forall|x: int| 0 <= x < n ==> #[trigger] tags@[x] < k,
                forall|c: int|
                    0 <= c < k ==> #[trigger] sizes@[c] as int == cluster_size(ti, c, i + 1),
                forall|c: int| 0 <= c < k ==> #[trigger] sizes@[c] <= i + 1,
                forall|c: int, j2: int|
                    0 <= c < k && 0 <= j2 < d && (c != t || j2 >= j) ==> acc@[c * (d as int) + j2]
                        as int == #[trigger] cluster_dim_sum(di, ti, d as int, c, j2, i as int),
                forall|j2: int|
                    0 <= j2 < j ==> acc@[(t as int) * (d as int) + j2] as int
                        == #[trigger] cluster_dim_sum(di, ti, d as int, t as int, j2, i + 1),
            decreases d - j,
        {
            proof {
                vstd::arithmetic::mul::lemma_mul_inequality(t + 1, k as int, d as int);
                vstd::arithmetic::mul::lemma_mul_inequality(i + 1, n as int, d as int);
                assert((t + 1) * (d as int) == (t as int) * (d as int) + d) by (nonlinear_arith);
                assert((i + 1) * (d as int) == (i as int) * (d as int) + d) by (nonlinear_arith);
            }
            let idx = t * d + j;
            let a = acc[idx];
            let v = data[i * d + j];
            proof {
                lemma_cluster_dim_sum_bound(
                    di,
                    ti,
                    d as int,
                    t as int,
                    j as int,
                    i as int,
                    crate::distance::COORD_LIMIT as int,
                );
                vstd::arithmetic::mul::lemma_mul_inequality(
                    cluster_size(ti, t as int, i as int),
                    u64::MAX as int,
                    crate::distance::COORD_LIMIT as int,
                );
                assert((u64::MAX as int) * (crate::distance::COORD_LIMIT as int) + (
                crate::distance::COORD_LIMIT as int) < i128::MAX as int) by (nonlinear_arith);
            }
            acc.set(idx, a + v as i128);
            proof {
                lemma_flat_index(t as int, j as int, d as int);
                assert forall|c: int, j2: int|
                    0 <= c < k && 0 <= j2 < d && (c != t || j2 >= j + 1) implies acc@[c * (
                d as int) + j2] as int == #[trigger] cluster_dim_sum(
                    di,
                    ti,
                    d as int,
                    c,
                    j2,
                    i as int,
                ) by {
                    assert(0 <= c * (d as int) + j2 < kd) by (nonlinear_arith)
                        requires
                            0 <= c < k as int && 0 <= j2 < d as int && kd == (k as int) * (d as int),
                    ;
                    if c * (d as int) + j2 == idx as int {
                        lemma_flat_index(c, j2, d as int);
                        assert(false);
                    }
                }
                assert forall|j2: int|
                    0 <= j2 < j + 1 implies acc@[(t as int) * (d as int) + j2] as int
                    == #[trigger] cluster_dim_sum(di, ti, d as int, t as int, j2, i + 1) by {
                    if j2 < j {
                        if (t as int) * (d as int) + j2 == idx as int {
                            lemma_flat_index(t as int, j2, d as int);
                            assert(false);
                        }
                    } else {
                        assert(cluster_dim_sum(di, ti, d as int, t as int, j as int, i + 1)
                            == cluster_dim_sum(di, ti, d as int, t as int, j as int, i as int) + di[(
                        i as int) * (d as int) + (j as int)]);
                    }
                }
            }
            j = j + 1;
        }
        proof {
            assert forall|c: int, j2: int|
                0 <= c < k && 0 <= j2 < d implies acc@[c * (d as int) + j2] as int
                == #[trigger] cluster_dim_sum(di, ti, d as int, c, j2, i + 1) by {
                assert(cluster_dim_sum(di, ti, d as int, c, j2, i + 1) == cluster_dim_sum(
                    di,
                    ti,
                    d as int,
                    c,
                    j2,
                    i as int,
                ) + if ti[i as int] == c {
                    di[(i as int) * (d as int) + j2]
                } else {
                    0int
                });
            }
        }
        i = i + 1;
    }
    let ghost model = updated_centroids(di, ti, ci0, d as int, k as int, n as int);
    let mut c: usize = 0;
    while c < k
        invariant
            c <= k,
            d >= 1,
            k >= 1,
            n == tags@.len(),
            data@.len() == n * d,
            kd == k * d,
            kd == cents@.len(),
            acc@.len() == kd,
            sizes@.len() == k,
            di == int_seq(data@),
            ti == tag_ints(tags@),
            ci0 == int_seq(old(cents)@),
            old(cents)@.len() == kd,
            model == updated_centroids(di, ti, ci0, d as int, k as int, n as int),
            forall|x: int|
                0 <= x < data@.len() ==> -crate::distance::COORD_LIMIT <= #[trigger] data@[x]
                    <= crate::distance::COORD_LIMIT,
            forall|x: int|
                0 <= x < old(cents)@.len() ==> -crate::distance::COORD_LIMIT <= #[trigger] old(cents)@[x] <= crate::distance::COORD_LIMIT,
            forall|x: int|
                0 <= x < kd ==> -crate::distance::COORD_LIMIT <= #[trigger] cents@[x]
                    <= crate::distance::COORD_LIMIT,
            forall|cl: int| 0 <= cl < k ==> #[trigger] sizes@[cl] as int == cluster_size(ti, cl, n as int),
            forall|cl: int, j: int|
                0 <= cl < k && 0 <= j < d ==> acc@[cl * (d as int) + j] as int
                    == #[trigger] cluster_dim_sum(di, ti, d as int, cl, j, n as int),
            forall|idx: int|
                0 <= idx < (c as int) * (d as int) ==> #[trigger] cents@[idx] as int == model[idx],
            forall|idx: int|
                (c as int) * (d as int) <= idx < kd ==> #[trigger] cents@[idx] == old(cents)@[idx],
        decreases k - c,
    {
        proof {
            vstd::arithmetic::mul::lemma_mul_inequality(c + 1, k as int, d as int);
            assert((c + 1) * (d as int) == (c as int) * (d as int) + d) by (nonlinear_arith);
        }
        let size = sizes[c];
        let mut j: usize = 0;
        while j < d
            invariant
                j <= d,
                c < k,
                d >= 1,
                k >= 1,
                n == tags@.len(),
                data@.len() == n * d,
                kd == k * d,
                kd == cents@.len(),
                acc@.len() == kd,
                sizes@.len() == k,
                di == int_seq(data@),
                ti == tag_ints(tags@),
                ci0 == int_seq(old(cents)@),
                old(cents)@.len() == kd,
                model == updated_centroids(di, ti, ci0, d as int, k as int, n as int),
                size == sizes@[c as int],
                (c as int) * (d as int) + d <= kd,
                forall|x: int|
                    0 <= x < data@.len() ==> -crate::distance::COORD_LIMIT <= #[trigger] data@[x]
                        <= crate::distance::COORD_LIMIT,
                forall|x: int|
                    0 <= x < old(cents)@.len() ==> -crate::distance::COORD_LIMIT <= #[trigger] old(cents)@[x] <= crate::distance::COORD_LIMIT,
                forall|x: int|
                    0 <= x < kd ==> -crate::distance::COORD_LIMIT <= #[trigger] cents@[x]
                        <= crate::distance::COORD_LIMIT,
                forall|cl: int|
                    0 <= cl < k ==> #[trigger] sizes@[cl] as int == cluster_size(ti, cl, n as int),
                forall|cl: int, j2: int|
                    0 <= cl < k && 0 <= j2 < d ==> acc@[cl * (d as int) + j2] as int
                        == #[trigger] cluster_dim_sum(di, ti, d as int, cl, j2, n as int),
                forall|idx: int|
                    0 <= idx < (c as int) * (d as int) + j ==> #[trigger] cents@[idx] as int
                        == model[idx],
                forall|idx: int|
                    (c as int) * (d as int) + j <= idx < kd ==> #[trigger] cents@[idx] == old(cents)@[idx],
            decreases d - j,
        {
            let idx = c * d + j;
            proof {
                lemma_flat_index(c as int, j as int, d as int);
                lemma_cluster_dim_sum_bound(
                    di,
                    ti,
                    d as int,
                    c as int,
                    j as int,
                    n as int,
                    crate::distance::COORD_LIMIT as int,
                );
            }
            if size > 0 {
                let m = mean_of_sum(acc[idx], size);
                cents.set(idx, m);
            } else {
                proof {
                    assert(ci0[idx as int] == old(cents)@[idx as int] as int);
                    assert(model[idx as int] == ci0[idx as int]);
                    assert(cents@[idx as int] as int == model[idx as int]);
                }
            }
            j = j + 1;
        }
        c = c + 1;
    }
    proof {
        assert(int_seq(cents@) =~= model);
    }
}

/// Sum of all recorded errors, exact in a 128-bit accumulator.
fn sum_errors(errors: &Vec<i64>) -> (r: i128)
    requires
        forall|i: int|
            0 <= i < errors@.len() ==> 0 <= #[trigger] errors@[i] < crate::distance::MAX_DISTANCE,
    ensures
        r as int == sum_ints(int_seq(errors@)),
        0 <= r as int <= errors@.len() * (crate::distance::MAX_DISTANCE as int),
{
    let n = errors.len();
    let mut sum: i128 = 0;
    let mut i: usize = 0;
    while i < n
        invariant
            i <= n,
            n == errors@.len(),
            forall|x: int|
                0 <= x < errors@.len() ==> 0 <= #[trigger] errors@[x]
                    < crate::distance::MAX_DISTANCE,
            sum as int == sum_ints(int_seq(errors@).take(i as int)),
            0 <= sum as int <= (i as int) * (crate::distance::MAX_DISTANCE as int),
        decreases n - i,
    {
        proof {
            assert(int_seq(errors@).take(i + 1).drop_last() =~= int_seq(errors@).take(i as int));
            assert((i as int) * (crate::distance::MAX_DISTANCE as int) + (
            crate::distance::MAX_DISTANCE as int) == (i + 1) * (crate::distance::MAX_DISTANCE as int))
                by (nonlinear_arith);
            vstd::arithmetic::mul::lemma_mul_inequality(
                i + 1,
                usize::MAX as int,
                crate::distance::MAX_DISTANCE as int,
            );
            assert(usize::MAX as int * (crate::distance::MAX_DISTANCE as int) < i128::MAX as int)
                by (nonlinear_arith)
                requires
                    usize::MAX as int <= u64::MAX as int,
            ;
        }
        sum = sum + (errors[i] as i128);
        i = i + 1;
    }
    proof {
        assert(int_seq(errors@).take(n as int) =~= int_seq(errors@));
        vstd::arithmetic::mul::lemma_mul_inequality(
            i as int,
            usize::MAX as int,
            crate::distance::MAX_DISTANCE as int,
        );
    }
    sum
}

/// Invalid clustering configurations; each is rejected before any work is
/// done, never silently turned into a meaningless result.
#[derive(Clone, Copy, Debug, PartialEq, Eq, Structural)]
pub enum KmeansError {
    /// `k` was zero: there is no cluster to assign any sample to.
    ZeroClusters,
    /// The dimension count was zero.
    ZeroDimensions,
    /// The dataset length is not a multiple of the dimension count.
    DataSizeMismatch,
    /// The centroid array length is not `k * num_dimensions`.
    CentroidSizeMismatch,
}

/// The configuration error a clustering call reports, if any, in the order
/// the checks are made.
pub open spec fn config_error(data_len: int, d: int, k: int, cents_len: int) -> Option<
    KmeansError,
> {
    if k == 0 {
        Some(KmeansError::ZeroClusters)
    } else if d == 0 {
        Some(KmeansError::ZeroDimensions)
    } else if data_len % d != 0 {
        Some(KmeansError::DataSizeMismatch)
    } else if cents_len != k * d {
        Some(KmeansError::CentroidSizeMismatch)
    } else {
        None
    }
}

/// Average of a non-negative error total over `n` samples, rounded down.
fn average_error(total: i128, n: usize) -> (r: i64)
    requires
        n >= 1,
        0 <= total as int <= (n as int) * (crate::distance::MAX_DISTANCE as int),
    ensures
        r as int == trunc_div(total as int, n as int),
        0 <= r <= crate::distance::MAX_DISTANCE,
{
    let q: u128 = (total as u128) / (n as u128);
    proof {
        vstd::arithmetic::div_mod::lemma_div_is_ordered(
            total as int,
            (n as int) * (crate::distance::MAX_DISTANCE as int),
            n as int,
        );
        vstd::arithmetic::div_mod::lemma_div_multiples_vanish(
            crate::distance::MAX_DISTANCE as int,
            n as int,
        );
    }
    q as i64
}

/// K-means over a flat dataset of `data.len() / num_dimensions` samples.
///
/// Rejects invalid configurations exactly as `config_error` says, leaving
/// the centroids untouched. A dataset of at most one sample short-circuits
/// to all-zero tags and error 0 without running the loop. Otherwise the
/// returned tags, the final average error and the centroids left in
/// `centroids` are exactly what `kmeans_model` defines: an assignment step
/// followed by update steps until the average error reaches `max_error`,
/// `max_iters` passes have run, or a pass relocates nothing.
pub fn kmeans(
    data: Vec<i64>,
    num_dimensions: usize,
    k: usize,
    max_error: i64,
    max_iters: usize,
    centroids: &mut Vec<i64>,
) -> (res: Result<(Vec<usize>, i64), KmeansError>)
    requires
        forall|x: int|
            0 <= x < data@.len() ==> -crate::distance::COORD_LIMIT <= #[trigger] data@[x]
                <= crate::distance::COORD_LIMIT,
        forall|x: int|
            0 <= x < old(centroids)@.len() ==> -crate::distance::COORD_LIMIT <= #[trigger] old(
                centroids,
            )@[x] <= crate::distance::COORD_LIMIT,
    ensures
        ({
            let cfg = config_error(
                data@.len() as int,
                num_dimensions as int,
                k as int,
                old(centroids)@.len() as int,
            );
            match res {
                Ok((tags, avg)) => {
                    let n = data@.len() as int / num_dimensions as int;
                    &&& cfg is None
                    &&& tags@.len() == n
                    &&& forall|x: int| 0 <= x < tags@.len() ==> #[trigger] tags@[x] < k
                    &&& avg >= 0
                    &&& if n <= 1 {
                        &&& (forall|x: int| 0 <= x < tags@.len() ==> #[trigger] tags@[x] == 0)
                        &&& avg == 0
                        &&& final(centroids)@ == old(centroids)@
                    } else {
                        let (stf, avgf) = kmeans_model(
                            int_seq(data@),
                            num_dimensions as int,
                            k as int,
                            max_error as int,
                            max_iters as int,
                            int_seq(old(centroids)@),
                            n,
                        );
                        &&& tag_ints(tags@) == stf.tags
                        &&& avg as int == avgf
                        &&& int_seq(final(centroids)@) == stf.centroids
                    }
                },
                Err(e) => cfg == Some(e) && final(centroids)@ == old(centroids)@,
            }
        }),
{
    if k == 0 {
        return Err(KmeansError::ZeroClusters);
    }
    if num_dimensions == 0 {
        return Err(KmeansError::ZeroDimensions);
    }
    if data.len() % num_dimensions != 0 {
        return Err(KmeansError::DataSizeMismatch);
    }
    if centroids.len() / num_dimensions != k || centroids.len() % num_dimensions != 0 {
        proof {
            vstd::arithmetic::div_mod::lemma_fundamental_div_mod(
                old(centroids)@.len() as int,
                num_dimensions as int,
            );
            if old(centroids)@.len() as int == k as int * num_dimensions as int {
                vstd::arithmetic::div_mod::lemma_fundamental_div_mod_converse(
                    old(centroids)@.len() as int,
                    num_dimensions as int,
                    k as int,
                    0,
                );
            }
        }
        return Err(KmeansError::CentroidSizeMismatch);
    }
    proof {
        vstd::arithmetic::div_mod::lemma_fundamental_div_mod(
            old(centroids)@.len() as int,
            num_dimensions as int,
        );
        assert(old(centroids)@.len() as int == (num_dimensions as int) * (old(
            centroids,
        )@.len() as int / (num_dimensions as int)) + old(centroids)@.len() as int % (
        num_dimensions as int));
        vstd::arithmetic::mul::lemma_mul_is_commutative(
            num_dimensions as int,
            old(centroids)@.len() as int / (num_dimensions as int),
        );
        assert(old(centroids)@.len() == k * num_dimensions);
        vstd::arithmetic::div_mod::lemma_fundamental_div_mod(
            data@.len() as int,
            num_dimensions as int,
        );
        assert(data@.len() as int == (num_dimensions as int) * (data@.len() as int / (
        num_dimensions as int)) + data@.len() as int % (num_dimensions as int));
        vstd::arithmetic::mul::lemma_mul_is_commutative(
            num_dimensions as int,
            data@.len() as int / (num_dimensions as int),
        );
        assert(data@.len() == (data@.len() as int / (num_dimensions as int)) * num_dimensions);
    }
    let num_samples = data.len() / num_dimensions;

    if num_samples <= 1 {
        let tags = zero_usize_vec(num_samples);
        return Ok((tags, 0));
    }
    let ghost di = int_seq(data@);
    let ghost ci0 = int_seq(centroids@);
    let ghost n = num_samples as int;
    let ghost d = num_dimensions as int;
    let ghost me = max_error as int;
    let ghost mi = max_iters as int;

    let mut tags = zero_usize_vec(num_samples);
    let mut errors = zero_i64_vec(num_samples);
    proof {
        vstd::arithmetic::div_mod::lemma_fundamental_div_mod(
            data@.len() as int,
            num_dimensions as int,
        );
        assert(data@.len() as int % (num_dimensions as int) == 0);
        assert(num_samples as int == data@.len() as int / (num_dimensions as int));
        assert(data@.len() as int == (num_dimensions as int) * (data@.len() as int / (
        num_dimensions as int)) + data@.len() as int % (num_dimensions as int));
        vstd::arithmetic::mul::lemma_mul_is_commutative(
            num_dimensions as int,
            data@.len() as int / (num_dimensions as int),
        );
        assert(data@.len() == num_samples * num_dimensions);
    }
    assign_all(&data, num_dimensions, k, centroids, &mut tags, &mut errors);
    let ghost st0 = assign_state(di, ci0, d, k as int, n);
    proof {
        assert(st0 =~= (KmState {
            centroids: int_seq(centroids@),
            tags: tag_ints(tags@),
            errors: int_seq(errors@),
        }));
    }

    let mut iter_count: usize = 0;
    let mut avg_error: i64 = 0;
    loop
        invariant_except_break
            num_dimensions >= 1,
            k >= 1,
            num_samples >= 2,
            iter_count == 0 || iter_count < max_iters,
            di == int_seq(data@),
            d == num_dimensions as int,
            n == num_samples as int,
            me == max_error as int,
            mi == max_iters as int,
            data@.len() == num_samples * num_dimensions,
            forall|x: int|
                0 <= x < data@.len() ==> -crate::distance::COORD_LIMIT <= #[trigger] data@[x]
                    <= crate::distance::COORD_LIMIT,
            tags@.len() == num_samples,
            errors@.len() == num_samples,
            centroids@.len() == k * num_dimensions,
            forall|x: int|
                0 <= x < centroids@.len() ==> -crate::distance::COORD_LIMIT
                    <= #[trigger] centroids@[x] <= crate::distance::COORD_LIMIT,
            forall|x: int| 0 <= x < tags@.len() ==> #[trigger] tags@[x] < k,
            forall|x: int|
                0 <= x < errors@.len() ==> 0 <= #[trigger] errors@[x]
                    < crate::distance::MAX_DISTANCE,
            run_steps(
                di,
                d,
                k as int,
                n,
                me,
                mi,
                (KmState {
                    centroids: int_seq(centroids@),
                    tags: tag_ints(tags@),
                    errors: int_seq(errors@),
                }),
                iter_count as int,
            ) == run_steps(di, d, k as int, n, me, mi, st0, 0),
        ensures
            di == int_seq(data@),
            d == num_dimensions as int,
            n == num_samples as int,
            me == max_error as int,
            mi == max_iters as int,
            tags@.len() == num_samples,
            forall|x: int| 0 <= x < tags@.len() ==> #[trigger] tags@[x] < k,
            0 <= avg_error <= crate::distance::MAX_DISTANCE,
            ({
                let (stf, avgf) = run_steps(di, d, k as int, n, me, mi, st0, 0);
                &&& tag_ints(tags@) == stf.tags
                &&& avg_error as int == avgf
                &&& int_seq(centroids@) == stf.centroids
            }),
        decreases max_iters - iter_count,
    {
        let ghost st_cur = KmState {
            centroids: int_seq(centroids@),
            tags: tag_ints(tags@),
            errors: int_seq(errors@),
        };
        recompute_centroids(&data, num_dimensions, k, &tags, centroids);
        let moves = relocate_all(&data, num_dimensions, k, centroids, &mut tags, &mut errors);
        let total = sum_errors(&errors);
        let avg = average_error(total, num_samples);
        avg_error = avg;
        iter_count = iter_count + 1;
        proof {
            let st1 = update_step(di, d, k as int, n, st_cur);
            assert(int_seq(centroids@) == st1.centroids);
            assert(tag_ints(tags@) =~= st1.tags);
            assert(int_seq(errors@) =~= st1.errors);
            assert(moves as int == step_moves(di, d, k as int, n, st_cur));
            assert(avg_error as int == state_avg_error(st1, n));
        }
        if !(avg_error > max_error && iter_count < max_iters && moves > 0) {
            break;
        }
    }
    Ok((tags, avg_error))
}

/// One-dimensional k-means: the engine with an implicit dimension count of
/// one, so every sample is a single coordinate.
pub fn kmeans_1_d(
    data: Vec<i64>,
    k: usize,
    max_error: i64,
    max_iters: usize,
    centroids: &mut Vec<i64>,
) -> (res: Result<(Vec<usize>, i64), KmeansError>)
    requires
        forall|x: int|
            0 <= x < data@.len() ==> -crate::distance::COORD_LIMIT <= #[trigger] data@[x]
                <= crate::distance::COORD_LIMIT,
        forall|x: int|
            0 <= x < old(centroids)@.len() ==> -crate::distance::COORD_LIMIT <= #[trigger] old(
                centroids,
            )@[x] <= crate::distance::COORD_LIMIT,
    ensures
        ({
            let cfg = config_error(data@.len() as int, 1, k as int, old(centroids)@.len() as int);
            match res {
                Ok((tags, avg)) => {
                    let n = data@.len() as int;
                    &&& cfg is None
                    &&& tags@.len() == n
                    &&& forall|x: int| 0 <= x < tags@.len() ==> #[trigger] tags@[x] < k
                    &&& avg >= 0
                    &&& if n <= 1 {
                        &&& (forall|x: int| 0 <= x < tags@.len() ==> #[trigger] tags@[x] == 0)
                        &&& avg == 0
                        &&& final(centroids)@ == old(centroids)@
                    } else {
                        let (stf, avgf) = kmeans_model(
                            int_seq(data@),
                            1,
                            k as int,
                            max_error as int,
                            max_iters as int,
                            int_seq(old(centroids)@),
                            n,
                        );
                        &&& tag_ints(tags@) == stf.tags
                        &&& avg as int == avgf
                        &&& int_seq(final(centroids)@) == stf.centroids
                    }
                },
                Err(e) => cfg == Some(e) && final(centroids)@ == old(centroids)@,
            }
        }),
{
    kmeans(data, 1, k, max_error, max_iters, centroids)
}


/// Smallest value of coordinate `j` over the first `upto` samples (the
/// first sample seeds the scan).
pub open spec fn dim_min(data: Seq<int>, d: int, j: int, upto: int) -> int
    decreases upto,
{
    if upto <= 1 {
        data[j]
    } else {
        let prev = dim_min(data, d, j, upto - 1);
        let v = data[(upto - 1) * d + j];
        if v < prev {
            v
        } else {
            prev
        }
    }
}

/// Largest value of coordinate `j` over the first `upto` samples.
pub open spec fn dim_max(data: Seq<int>, d: int, j: int, upto: int) -> int
    decreases upto,
{
    if upto <= 1 {
        data[j]
    } else {
        let prev = dim_max(data, d, j, upto - 1);
        let v = data[(upto - 1) * d + j];
        if v > prev {
            v
        } else {
            prev
        }
    }
}

/// Equally spaced initial centroids: in every dimension independently,
/// centroid `c` sits at `min + c * ((max - min) / (k - 1))`; a single
/// centroid sits at the per-dimension minimum.
pub open spec fn spaced_centroids(data: Seq<int>, d: int, k: int, n: int) -> Seq<int> {
    Seq::new(
        (k * d) as nat,
        |idx: int|
            {
                let c = idx / d;
                let j = idx % d;
                let mn = dim_min(data, d, j, n);
                let mx = dim_max(data, d, j, n);
                if k <= 1 {
                    mn
                } else {
                    mn + c * ((mx - mn) / (k - 1))
                }
            },
    )
}

/// Deterministic, reproducible starting centroids, equally spaced between
/// the per-dimension minimum and maximum of the dataset.
fn equally_spaced_centroids(data: &Vec<i64>, d: usize, k: usize) -> (r: Vec<i64>)
    requires
        d >= 1,
        k >= 1,
        data@.len() as int % (d as int) == 0,
        data@.len() >= d,
        (k as int) * (d as int) <= usize::MAX as int,
        forall|x: int|
            0 <= x < data@.len() ==> -crate::distance::COORD_LIMIT <= #[trigger] data@[x]
                <= crate::distance::COORD_LIMIT,
    ensures
        r@.len() == k * d,
        int_seq(r@) == spaced_centroids(
            int_seq(data@),
            d as int,
            k as int,
            data@.len() as int / (d as int),
        ),
        forall|x: int|
            0 <= x < r@.len() ==> -crate::distance::COORD_LIMIT <= #[trigger] r@[x]
                <= crate::distance::COORD_LIMIT,
{
    let ghost di = int_seq(data@);
    let data_len = data.len();
    let n = data_len / d;
    proof {
        vstd::arithmetic::div_mod::lemma_fundamental_div_mod(data@.len() as int, d as int);
        vstd::arithmetic::mul::lemma_mul_is_commutative(d as int, n as int);
        assert(data@.len() == n * d);
        vstd::arithmetic::div_mod::lemma_div_is_ordered(d as int, data@.len() as int, d as int);
        vstd::arithmetic::div_mod::lemma_div_multiples_vanish(1, d as int);
        assert(n >= 1);
    }
    let ghost model = spaced_centroids(di, d as int, k as int, n as int);
    let mut cents = zero_i64_vec(k * d);
    let kd = k * d;
    let mut j: usize = 0;
    while j < d
        invariant
            j <= d,
            d >= 1,
            k >= 1,
            n >= 1,
            di == int_seq(data@),
            data@.len() == n * d,
            data@.len() == data_len,
            d <= data_len,
            kd == k * d,
            cents@.len() == kd,
            model == spaced_centroids(di, d as int, k as int, n as int),
            forall|x: int|
                0 <= x < data@.len() ==> -crate::distance::COORD_LIMIT <= #[trigger] data@[x]
                    <= crate::distance::COORD_LIMIT,
            forall|idx: int|
                0 <= idx < kd && idx % (d as int) < j ==> #[trigger] cents@[idx] as int
                    == model[idx],
            forall|idx: int|
                0 <= idx < kd ==> -crate::distance::COORD_LIMIT <= #[trigger] cents@[idx]
                    <= crate::distance::COORD_LIMIT,
        decreases d - j,
    {
        let mut mn = data[j];
        let mut mx = data[j];
        proof {
            assert(dim_min(di, d as int, j as int, 1) == di[j as int]);
            assert(dim_max(di, d as int, j as int, 1) == di[j as int]);
            assert(di[j as int] == data@[j as int] as int);
        }
        let mut i: usize = 1;
        while i < n
            invariant
                1 <= i <= n,
                j < d,
                d >= 1,
                n >= 1,
                di == int_seq(data@),
                data@.len() == n * d,
                data@.len() == data_len,
                forall|x: int|
                    0 <= x < data@.len() ==> -crate::distance::COORD_LIMIT <= #[trigger] data@[x]
                        <= crate::distance::COORD_LIMIT,
                mn as int == dim_min(di, d as int, j as int, i as int),
                mx as int == dim_max(di, d as int, j as int, i as int),
                -crate::distance::COORD_LIMIT <= mn <= mx <= crate::distance::COORD_LIMIT,
            decreases n - i,
        {
            proof {
                vstd::arithmetic::mul::lemma_mul_inequality(i + 1, n as int, d as int);
                assert((i + 1) * (d as int) == (i as int) * (d as int) + d) by (nonlinear_arith);
            }
            let v = data[i * d + j];
            if v < mn {
                mn = v;
            } else if v > mx {
                mx = v;
            }
            i = i + 1;
        }
        let increment: i64 = if k >= 2 {
            ((mx - mn) as u64 / (k - 1) as u64) as i64
        } else {
            0
        };
        proof {
            if k >= 2 {
                vstd::arithmetic::div_mod::lemma_fundamental_div_mod(
                    mx as int - mn as int,
                    k as int - 1,
                );
                assert(0 <= increment as int);
                assert((k as int - 1) * (increment as int) <= mx as int - mn as int);
            }
        }
        let mut c: usize = 0;
        while c < k
            invariant
                c <= k,
                j < d,
                d >= 1,
                k >= 1,
                n >= 1,
                di == int_seq(data@),
                data@.len() == n * d,
                data@.len() == data_len,
                kd == k * d,
                cents@.len() == kd,
                model == spaced_centroids(di, d as int, k as int, n as int),
                mn as int == dim_min(di, d as int, j as int, n as int),
                mx as int == dim_max(di, d as int, j as int, n as int),
                -crate::distance::COORD_LIMIT <= mn <= mx <= crate::distance::COORD_LIMIT,
                k >= 2 ==> increment as int == (mx as int - mn as int) / (k as int - 1),
                k >= 2 ==> 0 <= increment as int,
                k >= 2 ==> (k as int - 1) * (increment as int) <= mx as int - mn as int,
                k == 1 ==> increment == 0,
                forall|x: int|
                    0 <= x < data@.len() ==> -crate::distance::COORD_LIMIT <= #[trigger] data@[x]
                        <= crate::distance::COORD_LIMIT,
                forall|idx: int|
                    0 <= idx < kd && idx % (d as int) < j ==> #[trigger] cents@[idx] as int
                        == model[idx],
                forall|idx: int|
                    0 <= idx < kd && idx % (d as int) == j && idx / (d as int) < c
                        ==> #[trigger] cents@[idx] as int == model[idx],
                forall|idx: int|
                    0 <= idx < kd ==> -crate::distance::COORD_LIMIT <= #[trigger] cents@[idx]
                        <= crate::distance::COORD_LIMIT,
            decreases k - c,
        {
            proof {
                vstd::arithmetic::mul::lemma_mul_inequality(c + 1, k as int, d as int);
                assert((c + 1) * (d as int) == (c as int) * (d as int) + d) by (nonlinear_arith);
                if k >= 2 {
                    vstd::arithmetic::mul::lemma_mul_inequality(
                        c as int,
                        k as int - 1,
                        increment as int,
                    );
                    vstd::arithmetic::mul::lemma_mul_is_commutative(c as int, increment as int);
                }
            }
            let idx = c * d + j;
            let offset: i64 = ((increment as i128) * (c as i128)) as i64;
            let val: i64 = mn + offset;
            cents.set(idx, val);
            proof {
                lemma_flat_index(c as int, j as int, d as int);
                assert(model[idx as int] == mn as int + (c as int) * ((mx as int - mn as int) / (
                k as int - 1)) || (k == 1 && model[idx as int] == mn as int));
                assert(cents@[idx as int] as int == model[idx as int]);
                assert forall|idx2: int|
                    0 <= idx2 < kd && idx2 % (d as int) == j && idx2 / (d as int) < c + 1
                        implies #[trigger] cents@[idx2] as int == model[idx2] by {
                    if idx2 / (d as int) == c {
                        vstd::arithmetic::div_mod::lemma_fundamental_div_mod(idx2, d as int);
                        vstd::arithmetic::mul::lemma_mul_is_commutative(d as int, idx2 / (d as int));
                        assert(idx2 == idx as int);
                    }
                }
            }
            c = c + 1;
        }
        proof {
            assert forall|idx: int|
                0 <= idx < kd && idx % (d as int) < j + 1 implies #[trigger] cents@[idx] as int
                == model[idx] by {
                if idx % (d as int) == j as int {
                    vstd::arithmetic::div_mod::lemma_fundamental_div_mod(idx, d as int);
                    vstd::arithmetic::mul::lemma_mul_is_commutative(d as int, idx / (d as int));
                    if idx / (d as int) >= k {
                        vstd::arithmetic::mul::lemma_mul_inequality(
                            k as int,
                            idx / (d as int),
                            d as int,
                        );
                        assert(false);
                    }
                }
            }
        }
        j = j + 1;
    }
    proof {
        assert forall|idx: int| 0 <= idx < kd implies #[trigger] cents@[idx] as int
            == model[idx] by {
            vstd::arithmetic::div_mod::lemma_mod_bound(idx, d as int);
        }
        assert(int_seq(cents@) =~= model);
    }
    cents
}

/// K-means with deterministic, equally spaced initial centroids.
///
/// Validates the configuration exactly as `config_error` says (the centroid
/// array is built here, so its length is `k * num_dimensions` by
/// construction); a dataset of at most one sample short-circuits to all-zero
/// tags and error 0 without clustering. Otherwise the result is exactly
/// `kmeans_model` run from `spaced_centroids`.
pub fn kmeans_equally_space_centroids(
    data: Vec<i64>,
    num_dimensions: usize,
    k: usize,
    max_error: i64,
    max_iters: usize,
) -> (res: Result<(Vec<usize>, i64), KmeansError>)
    requires
        forall|x: int|
            0 <= x < data@.len() ==> -crate::distance::COORD_LIMIT <= #[trigger] data@[x]
                <= crate::distance::COORD_LIMIT,
        (k as int) * (num_dimensions as int) <= usize::MAX as int,
    ensures
        ({
            let cfg = config_error(
                data@.len() as int,
                num_dimensions as int,
                k as int,
                (k as int) * (num_dimensions as int),
            );
            match res {
                Ok((tags, avg)) => {
                    let n = data@.len() as int / num_dimensions as int;
                    &&& cfg is None
                    &&& tags@.len() == n
                    &&& forall|x: int| 0 <= x < tags@.len() ==> #[trigger] tags@[x] < k
                    &&& avg >= 0
                    &&& if n <= 1 {
                        (forall|x: int| 0 <= x < tags@.len() ==> #[trigger] tags@[x] == 0) && avg
                            == 0
                    } else {
                        let (stf, avgf) = kmeans_model(
                            int_seq(data@),
                            num_dimensions as int,
                            k as int,
                            max_error as int,
                            max_iters as int,
                            spaced_centroids(
                                int_seq(data@),
                                num_dimensions as int,
                                k as int,
                                n,
                            ),
                            n,
                        );
                        tag_ints(tags@) == stf.tags && avg as int == avgf
                    }
                },
                Err(e) => cfg == Some(e),
            }
        }),
{
    if k == 0 {
        return Err(KmeansError::ZeroClusters);
    }
    if num_dimensions == 0 {
        return Err(KmeansError::ZeroDimensions);
    }
    if data.len() % num_dimensions != 0 {
        return Err(KmeansError::DataSizeMismatch);
    }
    proof {
        vstd::arithmetic::div_mod::lemma_fundamental_div_mod(
            data@.len() as int,
            num_dimensions as int,
        );
        vstd::arithmetic::mul::lemma_mul_is_commutative(
            num_dimensions as int,
            data@.len() as int / (num_dimensions as int),
        );
    }
    let num_samples = data.len() / num_dimensions;
    if num_samples <= 1 {
        let tags = zero_usize_vec(num_samples);
        return Ok((tags, 0));
    }
    proof {
        vstd::arithmetic::mul::lemma_mul_inequality(1, num_samples as int, num_dimensions as int);
        assert(data@.len() >= num_dimensions);
    }
    let mut centroids = equally_spaced_centroids(&data, num_dimensions, k);
    kmeans(data, num_dimensions, k, max_error, max_iters, &mut centroids)
}

/// One-dimensional k-means with equally spaced initial centroids.
pub fn kmeans_equally_space_centroids_1_d(
    data: Vec<i64>,
    k: usize,
    max_error: i64,
    max_iters: usize,
) -> (res: Result<(Vec<usize>, i64), KmeansError>)
    requires
        forall|x: int|
            0 <= x < data@.len() ==> -crate::distance::COORD_LIMIT <= #[trigger] data@[x]
                <= crate::distance::COORD_LIMIT,
    ensures
        ({
            let cfg = config_error(data@.len() as int, 1, k as int, k as int);
            match res {
                Ok((tags, avg)) => {
                    let n = data@.len() as int;
                    &&& cfg is None
                    &&& tags@.len() == n
                    &&& forall|x: int| 0 <= x < tags@.len() ==> #[trigger] tags@[x] < k
                    &&& avg >= 0
                    &&& if n <= 1 {
                        (forall|x: int| 0 <= x < tags@.len() ==> #[trigger] tags@[x] == 0) && avg
                            == 0
                    } else {
                        let (stf, avgf) = kmeans_model(
                            int_seq(data@),
                            1,
                            k as int,
                            max_error as int,
                            max_iters as int,
                            spaced_centroids(int_seq(data@), 1, k as int, n),
                            n,
                        );
                        tag_ints(tags@) == stf.tags && avg as int == avgf
                    }
                },
                Err(e) => cfg == Some(e),
            }
        }),
{
    kmeans_equally_space_centroids(data, 1, k, max_error, max_iters)
}


} // verus!
