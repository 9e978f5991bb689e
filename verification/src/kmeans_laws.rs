//! Proved properties of the clustering engine: the relocation pass is
//! idempotent against unchanged centroids, recorded errors never increase,
//! the update loop runs a bounded number of steps, a single cluster
//! converges to the dataset mean, a centroid is computed from its own
//! samples alone, and clustering a two-dimensional dataset whose second
//! dimension is constant equals clustering the first dimension alone.

use crate::kmeans::cluster_dim_sum;
use crate::kmeans::cluster_size;
use crate::kmeans::reloc_err;
use crate::kmeans::reloc_moves;
use crate::kmeans::reloc_tag;
use crate::kmeans::sample_dist;
use crate::kmeans::total_moves;
use crate::kmeans::assign_err;
use crate::kmeans::assign_state;
use crate::kmeans::assign_tag;
use crate::kmeans::dim_max;
use crate::kmeans::dim_min;
use crate::kmeans::spaced_centroids;
use crate::kmeans::window;
use crate::kmeans::kmeans_model;
use crate::kmeans::run_steps;
use crate::kmeans::state_avg_error;
use crate::kmeans::step_moves;
use crate::kmeans::update_step;
use crate::kmeans::updated_centroids;
use crate::kmeans::KmState;
use crate::statistics::trunc_div;
use vstd::prelude::*;

verus! {

/// The error the relocation pass leaves on a sample is the smallest of the
/// starting error and every distance it tested.
pub proof fn lemma_reloc_err_min(data: Seq<int>, cents: Seq<int>, d: int, i: int, c: int, e0: int)
    ensures
        reloc_err(data, cents, d, i, c, e0) <= e0,
        forall|c2: int|
            0 <= c2 < c ==> reloc_err(data, cents, d, i, c, e0) <= #[trigger] sample_dist(
                data,
                cents,
                d,
                i,
                c2,
            ),
    decreases c,
{
    if c > 0 {
        lemma_reloc_err_min(data, cents, d, i, c - 1, e0);
    }
}

/// A relocation pass whose starting error is already at most every distance
/// changes nothing and counts no move.
pub proof fn lemma_reloc_fixpoint(
    data: Seq<int>,
    cents: Seq<int>,
    d: int,
    i: int,
    c: int,
    t0: int,
    e0: int,
)
    requires
        forall|c2: int| 0 <= c2 < c ==> e0 <= #[trigger] sample_dist(data, cents, d, i, c2),
    ensures
        reloc_err(data, cents, d, i, c, e0) == e0,
        reloc_tag(data, cents, d, i, c, t0, e0) == t0,
        reloc_moves(data, cents, d, i, c, e0) == 0,
    decreases c,
{
    if c > 0 {
        lemma_reloc_fixpoint(data, cents, d, i, c - 1, t0, e0);
    }
}

/// A pass that moves no sample counts zero moves in total.
proof fn lemma_total_moves_zero(
    data: Seq<int>,
    cents: Seq<int>,
    d: int,
    k: int,
    errors0: Seq<int>,
    upto: int,
)
    requires
        forall|i: int|
            0 <= i < upto ==> reloc_moves(data, cents, d, i, k, #[trigger] errors0[i]) == 0,
    ensures
        total_moves(data, cents, d, k, errors0, upto) == 0,
    decreases upto,
{
    if upto > 0 {
        lemma_total_moves_zero(data, cents, d, k, errors0, upto - 1);
    }
}

/// Idempotence of the relocation pass: after an update step has tested every
/// sample against the new centroids, running the same pass once more against
/// those unchanged centroids relocates nothing — every tag and error stays,
/// and the relocation count is zero.
pub proof fn lemma_update_step_idempotent(data: Seq<int>, d: int, k: int, n: int, st: KmState)
    requires
        st.tags.len() == n,
        st.errors.len() == n,
    ensures
        ({
            let st1 = update_step(data, d, k, n, st);
            &&& forall|i: int|
                0 <= i < n ==> reloc_tag(
                    data,
                    st1.centroids,
                    d,
                    i,
                    k,
                    #[trigger] st1.tags[i],
                    st1.errors[i],
                ) == st1.tags[i]
            &&& forall|i: int|
                0 <= i < n ==> reloc_err(data, st1.centroids, d, i, k, #[trigger] st1.errors[i])
                    == st1.errors[i]
            &&& total_moves(data, st1.centroids, d, k, st1.errors, n) == 0
        }),
{
    let st1 = update_step(data, d, k, n, st);
    assert forall|i: int| 0 <= i < n implies reloc_err(
        data,
        st1.centroids,
        d,
        i,
        k,
        #[trigger] st1.errors[i],
    ) == st1.errors[i] && reloc_moves(data, st1.centroids, d, i, k, st1.errors[i]) == 0 by {
        lemma_reloc_err_min(data, st1.centroids, d, i, k, st.errors[i]);
        lemma_reloc_fixpoint(data, st1.centroids, d, i, k, st1.tags[i], st1.errors[i]);
    }
    assert forall|i: int| 0 <= i < n implies reloc_tag(
        data,
        st1.centroids,
        d,
        i,
        k,
        #[trigger] st1.tags[i],
        st1.errors[i],
    ) == st1.tags[i] by {
        lemma_reloc_err_min(data, st1.centroids, d, i, k, st.errors[i]);
        lemma_reloc_fixpoint(data, st1.centroids, d, i, k, st1.tags[i], st1.errors[i]);
    }
    lemma_total_moves_zero(data, st1.centroids, d, k, st1.errors, n);
}

/// Monotonicity: an update step never increases any sample's recorded error.
pub proof fn lemma_update_step_monotonic(data: Seq<int>, d: int, k: int, n: int, st: KmState, i: int)
    requires
        0 <= i < n,
        st.tags.len() == n,
        st.errors.len() == n,
    ensures
        update_step(data, d, k, n, st).errors[i] <= st.errors[i],
{
    let st1 = update_step(data, d, k, n, st);
    lemma_reloc_err_min(data, st1.centroids, d, i, k, st.errors[i]);
}

/// Monotonicity over the whole run: every sample's final recorded error is
/// at most its error in the state the loop started from.
pub proof fn lemma_run_errors_monotonic(
    data: Seq<int>,
    d: int,
    k: int,
    n: int,
    max_error: int,
    max_iters: int,
    st: KmState,
    iter: int,
    i: int,
)
    requires
        0 <= i < n,
        st.tags.len() == n,
        st.errors.len() == n,
    ensures
        crate::kmeans::run_steps(data, d, k, n, max_error, max_iters, st, iter).0.errors[i]
            <= st.errors[i],
    decreases max_iters - iter,
{
    let st1 = update_step(data, d, k, n, st);
    lemma_update_step_monotonic(data, d, k, n, st, i);
    let avg = crate::kmeans::state_avg_error(st1, n);
    let moves = crate::kmeans::step_moves(data, d, k, n, st);
    if avg > max_error && iter + 1 < max_iters && moves > 0 {
        lemma_run_errors_monotonic(data, d, k, n, max_error, max_iters, st1, iter + 1, i);
    }
}

/// Number of update steps the loop performs when its pass counter starts at
/// `iter`; mirrors the recursion of `run_steps`.
pub open spec fn steps_taken(
    data: Seq<int>,
    d: int,
    k: int,
    n: int,
    max_error: int,
    max_iters: int,
    st: KmState,
    iter: int,
) -> int
    decreases max_iters - iter,
{
    let st1 = update_step(data, d, k, n, st);
    let avg = state_avg_error(st1, n);
    let moves = step_moves(data, d, k, n, st);
    if avg > max_error && iter + 1 < max_iters && moves > 0 {
        1 + steps_taken(data, d, k, n, max_error, max_iters, st1, iter + 1)
    } else {
        1
    }
}

/// Termination: whatever the input, the loop halts after at most
/// `max_iters` update steps (one step always runs, even with a zero budget).
pub proof fn lemma_run_bounded(
    data: Seq<int>,
    d: int,
    k: int,
    n: int,
    max_error: int,
    max_iters: int,
    st: KmState,
    iter: int,
)
    requires
        0 <= iter,
    ensures
        1 <= steps_taken(data, d, k, n, max_error, max_iters, st, iter),
        steps_taken(data, d, k, n, max_error, max_iters, st, iter) <= if max_iters - iter >= 1 {
            max_iters - iter
        } else {
            1
        },
    decreases max_iters - iter,
{
    let st1 = update_step(data, d, k, n, st);
    let avg = state_avg_error(st1, n);
    let moves = step_moves(data, d, k, n, st);
    if avg > max_error && iter + 1 < max_iters && moves > 0 {
        lemma_run_bounded(data, d, k, n, max_error, max_iters, st1, iter + 1);
    }
}

/// Sum of coordinate `j` over the first `upto` samples, with no tag filter.
pub open spec fn dim_total(data: Seq<int>, d: int, j: int, upto: int) -> int
    decreases upto,
{
    if upto <= 0 {
        0
    } else {
        dim_total(data, d, j, upto - 1) + data[(upto - 1) * d + j]
    }
}

/// With every sample tagged 0, cluster 0 holds the whole dataset.
proof fn lemma_all_zero_cluster(data: Seq<int>, tags: Seq<int>, d: int, j: int, upto: int)
    requires
        0 <= upto,
        forall|i: int| 0 <= i < upto ==> #[trigger] tags[i] == 0,
    ensures
        cluster_size(tags, 0, upto) == upto,
        cluster_dim_sum(data, tags, d, 0, j, upto) == dim_total(data, d, j, upto),
    decreases upto,
{
    if upto > 0 {
        lemma_all_zero_cluster(data, tags, d, j, upto - 1);
        assert(tags[upto - 1] == 0);
    }
}

/// The relocation pass leaves a tag at its starting value or at one of the
/// clusters it tested.
pub proof fn lemma_reloc_tag_range(
    data: Seq<int>,
    cents: Seq<int>,
    d: int,
    i: int,
    c: int,
    t0: int,
    e0: int,
)
    ensures
        reloc_tag(data, cents, d, i, c, t0, e0) == t0 || 0 <= reloc_tag(
            data,
            cents,
            d,
            i,
            c,
            t0,
            e0,
        ) < c,
    decreases c,
{
    if c > 0 {
        lemma_reloc_tag_range(data, cents, d, i, c - 1, t0, e0);
    }
}

/// With a single cluster, an update step keeps every tag at 0 and sets each
/// centroid coordinate to the mean of that coordinate over the whole
/// dataset, rounded towards zero.
proof fn lemma_single_cluster_step(data: Seq<int>, d: int, n: int, st: KmState)
    requires
        d >= 1,
        n >= 1,
        st.tags.len() == n,
        st.errors.len() == n,
        forall|i: int| 0 <= i < n ==> #[trigger] st.tags[i] == 0,
    ensures
        ({
            let st1 = update_step(data, d, 1, n, st);
            &&& forall|j: int|
                0 <= j < d ==> #[trigger] st1.centroids[j] == trunc_div(
                    dim_total(data, d, j, n),
                    n,
                )
            &&& forall|i: int| 0 <= i < n ==> #[trigger] st1.tags[i] == 0
        }),
{
    let st1 = update_step(data, d, 1, n, st);
    let cents2 = updated_centroids(data, st.tags, st.centroids, d, 1, n);
    assert forall|j: int| 0 <= j < d implies #[trigger] st1.centroids[j] == trunc_div(
        dim_total(data, d, j, n),
        n,
    ) by {
        vstd::arithmetic::div_mod::lemma_fundamental_div_mod_converse(j, d, 0, j);
        lemma_all_zero_cluster(data, st.tags, d, j % d, n);
        assert(cents2[j] == trunc_div(cluster_dim_sum(data, st.tags, d, 0, j % d, n), n));
    }
    assert forall|i: int| 0 <= i < n implies #[trigger] st1.tags[i] == 0 by {
        lemma_reloc_tag_range(data, cents2, d, i, 1, st.tags[i], st.errors[i]);
    }
}

/// With a single cluster the whole run keeps every tag at 0 and leaves each
/// centroid coordinate at the dataset's per-dimension mean.
proof fn lemma_single_cluster_run(
    data: Seq<int>,
    d: int,
    n: int,
    max_error: int,
    max_iters: int,
    st: KmState,
    iter: int,
)
    requires
        d >= 1,
        n >= 1,
        st.tags.len() == n,
        st.errors.len() == n,
        forall|i: int| 0 <= i < n ==> #[trigger] st.tags[i] == 0,
    ensures
        ({
            let (stf, avg) = run_steps(data, d, 1, n, max_error, max_iters, st, iter);
            &&& forall|j: int|
                0 <= j < d ==> #[trigger] stf.centroids[j] == trunc_div(
                    dim_total(data, d, j, n),
                    n,
                )
            &&& forall|i: int| 0 <= i < n ==> #[trigger] stf.tags[i] == 0
        }),
    decreases max_iters - iter,
{
    let st1 = update_step(data, d, 1, n, st);
    lemma_single_cluster_step(data, d, n, st);
    let avg = state_avg_error(st1, n);
    let moves = step_moves(data, d, 1, n, st);
    let res = run_steps(data, d, 1, n, max_error, max_iters, st, iter);
    if avg > max_error && iter + 1 < max_iters && moves > 0 {
        lemma_single_cluster_run(data, d, n, max_error, max_iters, st1, iter + 1);
        assert(res == run_steps(data, d, 1, n, max_error, max_iters, st1, iter + 1));
    } else {
        assert(res.0 == st1);
    }
}

/// Single-cluster convergence: with `k == 1` the engine tags every sample 0,
/// and every final centroid coordinate is the arithmetic mean of that
/// coordinate over the whole dataset, rounded towards zero.
pub proof fn lemma_single_cluster_mean(
    data: Seq<int>,
    d: int,
    max_error: int,
    max_iters: int,
    cents0: Seq<int>,
    n: int,
)
    requires
        d >= 1,
        n >= 1,
    ensures
        ({
            let (stf, avg) = kmeans_model(data, d, 1, max_error, max_iters, cents0, n);
            &&& forall|i: int| 0 <= i < n ==> #[trigger] stf.tags[i] == 0
            &&& forall|j: int|
                0 <= j < d ==> #[trigger] stf.centroids[j] == trunc_div(
                    dim_total(data, d, j, n),
                    n,
                )
        }),
{
    let st0 = assign_state(data, cents0, d, 1, n);
    lemma_single_cluster_run(data, d, n, max_error, max_iters, st0, 0);
}

/// A centroid is computed from its own cluster's samples alone: if two
/// configurations agree on which samples carry tag `c` and on those samples'
/// coordinate `j`, cluster `c` has the same size and the same coordinate sum
/// in both — other samples' data and tags are irrelevant to it.
pub proof fn lemma_cluster_sums_local(
    data1: Seq<int>,
    tags1: Seq<int>,
    d1: int,
    j1: int,
    data2: Seq<int>,
    tags2: Seq<int>,
    d2: int,
    j2: int,
    c: int,
    upto: int,
)
    requires
        forall|i: int| 0 <= i < upto ==> ((#[trigger] tags1[i] == c) <==> (tags2[i] == c)),
        forall|i: int|
            0 <= i < upto && #[trigger] tags1[i] == c ==> data1[i * d1 + j1] == data2[i * d2 + j2],
    ensures
        cluster_size(tags1, c, upto) == cluster_size(tags2, c, upto),
        cluster_dim_sum(data1, tags1, d1, c, j1, upto) == cluster_dim_sum(
            data2,
            tags2,
            d2,
            c,
            j2,
            upto,
        ),
    decreases upto,
{
    if upto > 0 {
        lemma_cluster_sums_local(data1, tags1, d1, j1, data2, tags2, d2, j2, c, upto - 1);
    }
}

/// The two-dimensional embedding of a one-dimensional dataset: each sample
/// keeps its value as its first coordinate and carries the constant `cval`
/// as its second.
pub open spec fn paired_data(data1: Seq<int>, cval: int) -> Seq<int> {
    Seq::new(
        (2 * data1.len()) as nat,
        |x: int|
            if x % 2 == 0 {
                data1[x / 2]
            } else {
                cval
            },
    )
}

/// A two-dimensional centroid array that embeds a one-dimensional one: each
/// centroid keeps its value first and carries `cval` second.
pub open spec fn cents_paired(c1: Seq<int>, c2: Seq<int>, cval: int) -> bool {
    &&& c2.len() == 2 * c1.len()
    &&& forall|c: int| 0 <= c < c1.len() ==> c2[2 * c] == #[trigger] c1[c] && c2[2 * c + 1] == cval
}

/// Matching clustering states of the two layouts: same tags, same errors,
/// paired centroids.
pub open spec fn states_paired(st1: KmState, st2: KmState, cval: int) -> bool {
    &&& st2.tags == st1.tags
    &&& st2.errors == st1.errors
    &&& cents_paired(st1.centroids, st2.centroids, cval)
}

/// In the embedding, a sample's distance to a paired centroid equals its
/// one-dimensional distance: the constant second coordinate contributes a
/// zero squared difference.
proof fn lemma_paired_dist(data1: Seq<int>, cval: int, c1: Seq<int>, c2: Seq<int>, i: int, c: int)
    requires
        cents_paired(c1, c2, cval),
        0 <= i < data1.len(),
        0 <= c < c1.len(),
    ensures
        sample_dist(paired_data(data1, cval), c2, 2, i, c) == sample_dist(data1, c1, 1, i, c),
{
    let data2 = paired_data(data1, cval);
    vstd::arithmetic::div_mod::lemma_fundamental_div_mod_converse(2 * i, 2, i, 0);
    vstd::arithmetic::div_mod::lemma_fundamental_div_mod_converse(2 * i + 1, 2, i, 1);
    vstd::arithmetic::div_mod::lemma_fundamental_div_mod_converse(2 * c, 2, c, 0);
    vstd::arithmetic::div_mod::lemma_fundamental_div_mod_converse(2 * c + 1, 2, c, 1);
    assert(window(data2, 2, i) =~= seq![data1[i], cval]);
    assert(window(c2, 2, c) =~= seq![c1[c], cval]);
    assert(window(data1, 1, i) =~= seq![data1[i]]);
    assert(window(c1, 1, c) =~= seq![c1[c]]);
    let p2 = seq![data1[i], cval];
    let q2 = seq![c1[c], cval];
    let p1 = seq![data1[i]];
    let q1 = seq![c1[c]];
    assert(p2.drop_last() =~= p1);
    assert(q2.drop_last() =~= q1);
    assert(p1.drop_last() =~= Seq::<int>::empty());
    assert(q1.drop_last() =~= Seq::<int>::empty());
    assert(crate::distance::sum_sq_diff(p1.drop_last(), q1.drop_last()) == 0);
    assert(crate::distance::sum_sq_diff(p1, q1) == (data1[i] - c1[c]) * (data1[i] - c1[c]));
    assert(crate::distance::sum_sq_diff(p2, q2) == crate::distance::sum_sq_diff(p1, q1) + (cval
        - cval) * (cval - cval));
}

/// Assignment folds agree wherever the tested distances agree.
proof fn lemma_assign_folds_equal(
    data1: Seq<int>,
    c1: Seq<int>,
    d1: int,
    data2: Seq<int>,
    c2: Seq<int>,
    d2: int,
    i: int,
    c: int,
)
    requires
        forall|x: int|
            0 <= x < c ==> #[trigger] sample_dist(data2, c2, d2, i, x) == sample_dist(
                data1,
                c1,
                d1,
                i,
                x,
            ),
        c >= 1,
    ensures
        assign_err(data2, c2, d2, i, c) == assign_err(data1, c1, d1, i, c),
        assign_tag(data2, c2, d2, i, c) == assign_tag(data1, c1, d1, i, c),
    decreases c,
{
    if c > 1 {
        lemma_assign_folds_equal(data1, c1, d1, data2, c2, d2, i, c - 1);
    }
}

/// Relocation folds agree wherever the tested distances agree.
proof fn lemma_reloc_folds_equal(
    data1: Seq<int>,
    c1: Seq<int>,
    d1: int,
    data2: Seq<int>,
    c2: Seq<int>,
    d2: int,
    i: int,
    c: int,
    t0: int,
    e0: int,
)
    requires
        forall|x: int|
            0 <= x < c ==> #[trigger] sample_dist(data2, c2, d2, i, x) == sample_dist(
                data1,
                c1,
                d1,
                i,
                x,
            ),
    ensures
        reloc_err(data2, c2, d2, i, c, e0) == reloc_err(data1, c1, d1, i, c, e0),
        reloc_tag(data2, c2, d2, i, c, t0, e0) == reloc_tag(data1, c1, d1, i, c, t0, e0),
        reloc_moves(data2, c2, d2, i, c, e0) == reloc_moves(data1, c1, d1, i, c, e0),
    decreases c,
{
    if c > 0 {
        lemma_reloc_folds_equal(data1, c1, d1, data2, c2, d2, i, c - 1, t0, e0);
    }
}

/// Relocation totals agree wherever the per-sample counts agree.
proof fn lemma_total_moves_equal(
    data1: Seq<int>,
    c1: Seq<int>,
    d1: int,
    data2: Seq<int>,
    c2: Seq<int>,
    d2: int,
    k: int,
    errors0: Seq<int>,
    upto: int,
)
    requires
        forall|i: int|
            0 <= i < upto ==> reloc_moves(data2, c2, d2, i, k, #[trigger] errors0[i])
                == reloc_moves(data1, c1, d1, i, k, errors0[i]),
    ensures
        total_moves(data2, c2, d2, k, errors0, upto) == total_moves(
            data1,
            c1,
            d1,
            k,
            errors0,
            upto,
        ),
    decreases upto,
{
    if upto > 0 {
        lemma_total_moves_equal(data1, c1, d1, data2, c2, d2, k, errors0, upto - 1);
    }
}

/// In the embedding, the constant dimension of any cluster sums to the
/// cluster size times the constant.
proof fn lemma_cluster_const_dim(data1: Seq<int>, cval: int, tags: Seq<int>, c: int, upto: int)
    requires
        0 <= upto <= data1.len(),
    ensures
        cluster_dim_sum(paired_data(data1, cval), tags, 2, c, 1, upto) == cluster_size(
            tags,
            c,
            upto,
        ) * cval,
    decreases upto,
{
    if upto > 0 {
        lemma_cluster_const_dim(data1, cval, tags, c, upto - 1);
        vstd::arithmetic::div_mod::lemma_fundamental_div_mod_converse(
            (upto - 1) * 2 + 1,
            2,
            upto - 1,
            1,
        );
        assert(paired_data(data1, cval)[(upto - 1) * 2 + 1] == cval);
        let sz = cluster_size(tags, c, upto - 1);
        assert((sz + 1) * cval == sz * cval + cval) by (nonlinear_arith);
    }
}

/// A cluster size is a count: never negative, never more than the samples
/// seen.
proof fn lemma_cluster_size_range(tags: Seq<int>, c: int, upto: int)
    requires
        0 <= upto,
    ensures
        0 <= cluster_size(tags, c, upto) <= upto,
    decreases upto,
{
    if upto > 0 {
        lemma_cluster_size_range(tags, c, upto - 1);
    }
}

/// Division by the cluster size is exact on the constant dimension.
proof fn lemma_trunc_div_exact(v: int, s: int)
    requires
        s >= 1,
    ensures
        trunc_div(s * v, s) == v,
{
    if v >= 0 {
        vstd::arithmetic::div_mod::lemma_div_multiples_vanish(v, s);
    } else {
        assert(-(s * v) == s * (-v)) by (nonlinear_arith);
        vstd::arithmetic::div_mod::lemma_div_multiples_vanish(-v, s);
    }
}

/// Recomputing centroids preserves the pairing: the first coordinates follow
/// the one-dimensional means, the constant dimension stays at `cval`.
proof fn lemma_paired_update_cents(
    data1: Seq<int>,
    cval: int,
    tags: Seq<int>,
    oc1: Seq<int>,
    oc2: Seq<int>,
    k: int,
    n: int,
)
    requires
        cents_paired(oc1, oc2, cval),
        oc1.len() == k,
        k >= 1,
        0 <= n <= data1.len(),
    ensures
        cents_paired(
            updated_centroids(data1, tags, oc1, 1, k, n),
            updated_centroids(paired_data(data1, cval), tags, oc2, 2, k, n),
            cval,
        ),
{
    let data2 = paired_data(data1, cval);
    let nc1 = updated_centroids(data1, tags, oc1, 1, k, n);
    let nc2 = updated_centroids(data2, tags, oc2, 2, k, n);
    assert(nc1.len() == k);
    assert(nc2.len() == 2 * k);
    assert forall|c: int| 0 <= c < nc1.len() implies nc2[2 * c] == #[trigger] nc1[c] && nc2[2 * c
        + 1] == cval by {
        vstd::arithmetic::div_mod::lemma_fundamental_div_mod_converse(2 * c, 2, c, 0);
        vstd::arithmetic::div_mod::lemma_fundamental_div_mod_converse(2 * c + 1, 2, c, 1);
        vstd::arithmetic::div_mod::lemma_fundamental_div_mod_converse(c, 1, c, 0);
        assert forall|i: int| 0 <= i < n && #[trigger] tags[i] == c implies data1[i * 1 + 0]
            == data2[i * 2 + 0] by {
            vstd::arithmetic::div_mod::lemma_fundamental_div_mod_converse(i * 2, 2, i, 0);
            assert(data2[i * 2 + 0] == data1[i]);
        }
        lemma_cluster_sums_local(data1, tags, 1, 0, data2, tags, 2, 0, c, n);
        let sz = cluster_size(tags, c, n);
        if sz == 0 {
            assert(nc2[2 * c] == oc2[2 * c]);
            assert(nc2[2 * c + 1] == oc2[2 * c + 1]);
        } else {
            lemma_cluster_size_range(tags, c, n);
            lemma_cluster_const_dim(data1, cval, tags, c, n);
            lemma_trunc_div_exact(cval, sz);
            assert(nc2[2 * c + 1] == trunc_div(sz * cval, sz));
        }
    }
}

/// One update step preserves the pairing, with equal tags, errors and move
/// counts on both sides.
proof fn lemma_paired_step(
    data1: Seq<int>,
    cval: int,
    st1: KmState,
    st2: KmState,
    k: int,
    n: int,
)
    requires
        states_paired(st1, st2, cval),
        st1.centroids.len() == k,
        st1.tags.len() == n,
        st1.errors.len() == n,
        k >= 1,
        data1.len() == n,
    ensures
        states_paired(
            update_step(data1, 1, k, n, st1),
            update_step(paired_data(data1, cval), 2, k, n, st2),
            cval,
        ),
        step_moves(paired_data(data1, cval), 2, k, n, st2) == step_moves(data1, 1, k, n, st1),
        state_avg_error(update_step(paired_data(data1, cval), 2, k, n, st2), n) == state_avg_error(
            update_step(data1, 1, k, n, st1),
            n,
        ),
{
    let data2 = paired_data(data1, cval);
    let u1 = update_step(data1, 1, k, n, st1);
    let u2 = update_step(data2, 2, k, n, st2);
    let nc1 = updated_centroids(data1, st1.tags, st1.centroids, 1, k, n);
    let nc2 = updated_centroids(data2, st2.tags, st2.centroids, 2, k, n);
    lemma_paired_update_cents(data1, cval, st1.tags, st1.centroids, st2.centroids, k, n);
    assert(nc1.len() == k) by {
        assert(nc1 == updated_centroids(data1, st1.tags, st1.centroids, 1, k, n));
    }
    assert forall|i: int, x: int| 0 <= i < n && 0 <= x < k implies #[trigger] sample_dist(
        data2,
        nc2,
        2,
        i,
        x,
    ) == sample_dist(data1, nc1, 1, i, x) by {
        lemma_paired_dist(data1, cval, nc1, nc2, i, x);
    }
    assert forall|i: int| 0 <= i < n implies #[trigger] u2.tags[i] == u1.tags[i] by {
        lemma_reloc_folds_equal(data1, nc1, 1, data2, nc2, 2, i, k, st1.tags[i], st1.errors[i]);
    }
    assert forall|i: int| 0 <= i < n implies #[trigger] u2.errors[i] == u1.errors[i] by {
        lemma_reloc_folds_equal(data1, nc1, 1, data2, nc2, 2, i, k, st1.tags[i], st1.errors[i]);
    }
    assert(u2.tags =~= u1.tags);
    assert(u2.errors =~= u1.errors);
    assert forall|i: int| 0 <= i < n implies reloc_moves(
        data2,
        nc2,
        2,
        i,
        k,
        #[trigger] st2.errors[i],
    ) == reloc_moves(data1, nc1, 1, i, k, st2.errors[i]) by {
        lemma_reloc_folds_equal(
            data1,
            nc1,
            1,
            data2,
            nc2,
            2,
            i,
            k,
            st1.tags[i],
            st1.errors[i],
        );
    }
    lemma_total_moves_equal(data1, nc1, 1, data2, nc2, 2, k, st2.errors, n);
}

/// The whole update loop gives equal tags, errors and average error on the
/// two layouts.
proof fn lemma_paired_run(
    data1: Seq<int>,
    cval: int,
    max_error: int,
    max_iters: int,
    st1: KmState,
    st2: KmState,
    k: int,
    n: int,
    iter: int,
)
    requires
        states_paired(st1, st2, cval),
        st1.centroids.len() == k,
        st1.tags.len() == n,
        st1.errors.len() == n,
        k >= 1,
        data1.len() == n,
    ensures
        ({
            let r1 = run_steps(data1, 1, k, n, max_error, max_iters, st1, iter);
            let r2 = run_steps(
                paired_data(data1, cval),
                2,
                k,
                n,
                max_error,
                max_iters,
                st2,
                iter,
            );
            r2.0.tags == r1.0.tags && r2.0.errors == r1.0.errors && r2.1 == r1.1
                && cents_paired(r1.0.centroids, r2.0.centroids, cval)
        }),
    decreases max_iters - iter,
{
    let data2 = paired_data(data1, cval);
    let u1 = update_step(data1, 1, k, n, st1);
    let u2 = update_step(data2, 2, k, n, st2);
    lemma_paired_step(data1, cval, st1, st2, k, n);
    let avg = state_avg_error(u1, n);
    let moves = step_moves(data1, 1, k, n, st1);
    if avg > max_error && iter + 1 < max_iters && moves > 0 {
        lemma_paired_run(data1, cval, max_error, max_iters, u1, u2, k, n, iter + 1);
    }
}

/// The equally spaced initializer pairs up: on the embedding it produces the
/// one-dimensional centroids in the first coordinate and `cval` in the
/// constant one.
proof fn lemma_dim_scan_paired(data1: Seq<int>, cval: int, upto: int)
    requires
        1 <= upto <= data1.len(),
    ensures
        dim_min(paired_data(data1, cval), 2, 0, upto) == dim_min(data1, 1, 0, upto),
        dim_max(paired_data(data1, cval), 2, 0, upto) == dim_max(data1, 1, 0, upto),
        dim_min(paired_data(data1, cval), 2, 1, upto) == cval,
        dim_max(paired_data(data1, cval), 2, 1, upto) == cval,
    decreases upto,
{
    let data2 = paired_data(data1, cval);
    if upto == 1 {
        vstd::arithmetic::div_mod::lemma_fundamental_div_mod_converse(0, 2, 0, 0);
        vstd::arithmetic::div_mod::lemma_fundamental_div_mod_converse(1, 2, 0, 1);
        assert(data2[0] == data1[0]);
        assert(data2[1] == cval);
    } else {
        lemma_dim_scan_paired(data1, cval, upto - 1);
        vstd::arithmetic::div_mod::lemma_fundamental_div_mod_converse(
            (upto - 1) * 2,
            2,
            upto - 1,
            0,
        );
        vstd::arithmetic::div_mod::lemma_fundamental_div_mod_converse(
            (upto - 1) * 2 + 1,
            2,
            upto - 1,
            1,
        );
        assert(data2[(upto - 1) * 2 + 0] == data1[upto - 1]);
        assert(data2[(upto - 1) * 2 + 1] == cval);
        assert(data1[(upto - 1) * 1 + 0] == data1[upto - 1]);
    }
}

/// Equally spaced initial centroids of the embedding pair with those of the
/// one-dimensional dataset.
proof fn lemma_paired_spaced(data1: Seq<int>, cval: int, k: int, n: int)
    requires
        k >= 1,
        n >= 1,
        data1.len() == n,
    ensures
        cents_paired(
            spaced_centroids(data1, 1, k, n),
            spaced_centroids(paired_data(data1, cval), 2, k, n),
            cval,
        ),
{
    let data2 = paired_data(data1, cval);
    let c1 = spaced_centroids(data1, 1, k, n);
    let c2 = spaced_centroids(data2, 2, k, n);
    lemma_dim_scan_paired(data1, cval, n);
    assert(c2.len() == 2 * k);
    assert forall|c: int| 0 <= c < c1.len() implies c2[2 * c] == #[trigger] c1[c] && c2[2 * c + 1]
        == cval by {
        vstd::arithmetic::div_mod::lemma_fundamental_div_mod_converse(2 * c, 2, c, 0);
        vstd::arithmetic::div_mod::lemma_fundamental_div_mod_converse(2 * c + 1, 2, c, 1);
        vstd::arithmetic::div_mod::lemma_fundamental_div_mod_converse(c, 1, c, 0);
        if k >= 2 {
            vstd::arithmetic::div_mod::lemma_div_multiples_vanish(0, k - 1);
            assert(c * ((cval - cval) / (k - 1)) == 0) by (nonlinear_arith)
                requires
                    (cval - cval) / (k - 1) == 0,
            ;
        }
    }
    assert(c1.len() == k);
    assert(c2.len() == 2 * c1.len());
    assert(cents_paired(c1, c2, cval));
}

/// N-dimensional versus one-dimensional equivalence: clustering the
/// two-dimensional embedding of a dataset whose second coordinate is the
/// constant `cval` — with the same `k`, tolerance, iteration budget and
/// equally spaced initial centroids — produces exactly the tags, recorded
/// errors and final average error of one-dimensional clustering on the
/// varying coordinate alone.
pub proof fn lemma_constant_dim_equivalence(
    data1: Seq<int>,
    cval: int,
    k: int,
    max_error: int,
    max_iters: int,
    n: int,
)
    requires
        k >= 1,
        n >= 1,
        data1.len() == n,
    ensures
        ({
            let r1 = kmeans_model(
                data1,
                1,
                k,
                max_error,
                max_iters,
                spaced_centroids(data1, 1, k, n),
                n,
            );
            let r2 = kmeans_model(
                paired_data(data1, cval),
                2,
                k,
                max_error,
                max_iters,
                spaced_centroids(paired_data(data1, cval), 2, k, n),
                n,
            );
            r2.0.tags == r1.0.tags && r2.0.errors == r1.0.errors && r2.1 == r1.1
        }),
{
    let data2 = paired_data(data1, cval);
    let c1 = spaced_centroids(data1, 1, k, n);
    let c2 = spaced_centroids(data2, 2, k, n);
    lemma_paired_spaced(data1, cval, k, n);
    let st1 = assign_state(data1, c1, 1, k, n);
    let st2 = assign_state(data2, c2, 2, k, n);
    assert forall|i: int, x: int| 0 <= i < n && 0 <= x < k implies #[trigger] sample_dist(
        data2,
        c2,
        2,
        i,
        x,
    ) == sample_dist(data1, c1, 1, i, x) by {
        lemma_paired_dist(data1, cval, c1, c2, i, x);
    }
    assert forall|i: int| 0 <= i < n implies #[trigger] st2.tags[i] == st1.tags[i] by {
        lemma_assign_folds_equal(data1, c1, 1, data2, c2, 2, i, k);
    }
    assert forall|i: int| 0 <= i < n implies #[trigger] st2.errors[i] == st1.errors[i] by {
        lemma_assign_folds_equal(data1, c1, 1, data2, c2, 2, i, k);
    }
    assert(st2.tags =~= st1.tags);
    assert(st2.errors =~= st1.errors);
    lemma_paired_run(data1, cval, max_error, max_iters, st1, st2, k, n, 0);
}

} // verus!
