//! Statistics primitives over non-empty integer sequences: arithmetic mean,
//! minimum and maximum.

use vstd::prelude::*;

verus! {

/// Sum of a sequence of `i64` values, as a mathematical integer.
pub open spec fn seq_sum(s: Seq<i64>) -> int
    decreases s.len(),
{
    if s.len() == 0 {
        0
    } else {
        seq_sum(s.drop_last()) + s.last()
    }
}

/// Sum of a sequence of mathematical integers.
pub open spec fn sum_ints(s: Seq<int>) -> int
    decreases s.len(),
{
    if s.len() == 0 {
        0
    } else {
        sum_ints(s.drop_last()) + s.last()
    }
}

/// Division that rounds towards zero (the behaviour of `/` on machine
/// integers), defined for positive divisors.
pub open spec fn trunc_div(a: int, b: int) -> int {
    if a >= 0 {
        a / b
    } else {
        -((-a) / b)
    }
}

/// Arithmetic mean of a non-empty vector, rounded towards zero.
pub fn average_i64(data: &Vec<i64>) -> (r: i64)
    requires
        data.len() >= 1,
    ensures
        r == trunc_div(seq_sum(data@), data@.len() as int),
{
    let n = data.len();
    let mut sum: i128 = 0;
    let mut i: usize = 0;
    while i < n
        invariant
            i <= n,
            n == data@.len(),
            sum == seq_sum(data@.take(i as int)),
            (i as int) * (i64::MIN as int) <= sum <= (i as int) * (i64::MAX as int),
        decreases n - i,
    {
        proof {
            assert(data@.take(i + 1).drop_last() =~= data@.take(i as int));
            assert((i as int) * (i64::MIN as int) + (i64::MIN as int) == (i + 1) * (
            i64::MIN as int)) by (nonlinear_arith);
            assert((i as int) * (i64::MAX as int) + (i64::MAX as int) == (i + 1) * (
            i64::MAX as int)) by (nonlinear_arith);
        }
        sum = sum + (data[i] as i128);
        i = i + 1;
    }
    proof {
        assert(data@.take(n as int) =~= data@);
        vstd::arithmetic::mul::lemma_mul_inequality(i as int, usize::MAX as int, i64::MAX as int);
        vstd::arithmetic::mul::lemma_mul_inequality(i as int, usize::MAX as int, -(i64::MIN as int));
    }
    if sum >= 0 {
        let q: u128 = (sum as u128) / (n as u128);
        proof {
            vstd::arithmetic::div_mod::lemma_div_is_ordered(
                sum as int,
                (n as int) * (i64::MAX as int),
                n as int,
            );
            vstd::arithmetic::div_mod::lemma_div_multiples_vanish(i64::MAX as int, n as int);
        }
        q as i64
    } else {
        let q: u128 = ((-sum) as u128) / (n as u128);
        proof {
            vstd::arithmetic::div_mod::lemma_div_is_ordered(
                -(sum as int),
                (n as int) * (-(i64::MIN as int)),
                n as int,
            );
            vstd::arithmetic::div_mod::lemma_div_multiples_vanish(-(i64::MIN as int), n as int);
        }
        (-(q as i128)) as i64
    }
}

/// Largest element of a non-empty vector.
pub fn max_i64(data: &Vec<i64>) -> (r: i64)
    requires
        data.len() >= 1,
    ensures
        forall|i: int| 0 <= i < data@.len() ==> data@[i] <= r,
        exists|i: int| 0 <= i < data@.len() && data@[i] == r,
{
    let mut result: i64 = data[0];
    let mut i: usize = 1;
    while i < data.len()
        invariant
            1 <= i <= data@.len(),
            forall|j: int| 0 <= j < i ==> data@[j] <= result,
            exists|j: int| 0 <= j < i && data@[j] == result,
        decreases data@.len() - i,
    {
        if data[i] > result {
            result = data[i];
        }
        i = i + 1;
    }
    result
}

/// Smallest element of a non-empty vector.
pub fn min_i64(data: &Vec<i64>) -> (r: i64)
    requires
        data.len() >= 1,
    ensures
        forall|i: int| 0 <= i < data@.len() ==> r <= data@[i],
        exists|i: int| 0 <= i < data@.len() && data@[i] == r,
{
    let mut result: i64 = data[0];
    let mut i: usize = 1;
    while i < data.len()
        invariant
            1 <= i <= data@.len(),
            forall|j: int| 0 <= j < i ==> result <= data@[j],
            exists|j: int| 0 <= j < i && data@[j] == result,
        decreases data@.len() - i,
    {
        if data[i] < result {
            result = data[i];
        }
        i = i + 1;
    }
    result
}

/// Largest element of a non-empty vector.
pub fn max_usize(data: &Vec<usize>) -> (r: usize)
    requires
        data.len() >= 1,
    ensures
        forall|i: int| 0 <= i < data@.len() ==> data@[i] <= r,
        exists|i: int| 0 <= i < data@.len() && data@[i] == r,
{
    let mut result: usize = data[0];
    let mut i: usize = 1;
    while i < data.len()
        invariant
            1 <= i <= data@.len(),
            forall|j: int| 0 <= j < i ==> data@[j] <= result,
            exists|j: int| 0 <= j < i && data@[j] == result,
        decreases data@.len() - i,
    {
        if data[i] > result {
            result = data[i];
        }
        i = i + 1;
    }
    result
}

/// Smallest element of a non-empty vector.
pub fn min_usize(data: &Vec<usize>) -> (r: usize)
    requires
        data.len() >= 1,
    ensures
        forall|i: int| 0 <= i < data@.len() ==> r <= data@[i],
        exists|i: int| 0 <= i < data@.len() && data@[i] == r,
{
    let mut result: usize = data[0];
    let mut i: usize = 1;
    while i < data.len()
        invariant
            1 <= i <= data@.len(),
            forall|j: int| 0 <= j < i ==> result <= data@[j],
            exists|j: int| 0 <= j < i && data@[j] == result,
        decreases data@.len() - i,
    {
        if data[i] < result {
            result = data[i];
        }
        i = i + 1;
    }
    result
}

} // verus!
