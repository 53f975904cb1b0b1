use vstd::prelude::*;

use crate::error::Error;

verus! {

/// Total mass of a distribution, as a mathematical integer.
pub open spec fn mass_sum(s: Seq<u64>) -> int
    decreases s.len(),
{
    if s.len() == 0 {
        0
    } else {
        mass_sum(s.drop_last()) + s.last()
    }
}

/// Absolute difference of two mathematical integers.
pub open spec fn abs_diff(a: int, b: int) -> int {
    if a >= b {
        a - b
    } else {
        b - a
    }
}

/// Sum, over the first `n` boundaries, of the absolute difference between
/// the cumulative masses of the two distributions.
pub open spec fn cumulative_diff_sum(a: Seq<u64>, b: Seq<u64>, n: int) -> int
    decreases n,
{
    if n <= 0 {
        0
    } else {
        cumulative_diff_sum(a, b, n - 1) + abs_diff(
            mass_sum(a.take(n)),
            mass_sum(b.take(n)),
        )
    }
}

/// The closed-form Wasserstein-1 distance of two one-dimensional
/// distributions of equal length and equal total mass: the sum over all
/// boundaries of the absolute difference of the cumulative masses (the
/// final boundary contributes nothing when the totals are equal).
pub open spec fn wasserstein_dist_1d(a: Seq<u64>, b: Seq<u64>) -> int {
    cumulative_diff_sum(a, b, a.len() as int)
}

pub proof fn lemma_mass_sum_nonneg(s: Seq<u64>)
    ensures
        mass_sum(s) >= 0,
    decreases s.len(),
{
    if s.len() > 0 {
        lemma_mass_sum_nonneg(s.drop_last());
    }
}

/// Extending a prefix by one element adds that element's mass.
pub proof fn lemma_mass_sum_take_succ(s: Seq<u64>, n: int)
    requires
        0 <= n < s.len(),
    ensures
        mass_sum(s.take(n + 1)) == mass_sum(s.take(n)) + s[n],
{
    assert(s.take(n + 1).drop_last() =~= s.take(n));
    assert(s.take(n + 1).last() == s[n]);
}

/// A prefix never carries more mass than the whole distribution.
pub proof fn lemma_mass_sum_take_le(s: Seq<u64>, n: int)
    requires
        0 <= n <= s.len(),
    ensures
        mass_sum(s.take(n)) <= mass_sum(s),
    decreases s.len() - n,
{
    if n == s.len() {
        assert(s.take(n) =~= s);
    } else {
        lemma_mass_sum_take_succ(s, n);
        lemma_mass_sum_take_le(s, n + 1);
    }
}

/// Total mass is bounded by length times the largest single mass.
pub proof fn lemma_mass_sum_len_bound(s: Seq<u64>)
    ensures
        mass_sum(s) <= s.len() * (u64::MAX as int),
    decreases s.len(),
{
    if s.len() > 0 {
        lemma_mass_sum_len_bound(s.drop_last());
        assert((s.len() - 1) * (u64::MAX as int) + (u64::MAX as int) == s.len() * (
        u64::MAX as int)) by (nonlinear_arith);
    }
}

/// No single mass exceeds the total.
pub proof fn lemma_mass_sum_ge_elem(s: Seq<u64>, i: int)
    requires
        0 <= i < s.len(),
    ensures
        s[i] <= mass_sum(s),
    decreases s.len(),
{
    if i == s.len() - 1 {
        lemma_mass_sum_nonneg(s.drop_last());
    } else {
        lemma_mass_sum_ge_elem(s.drop_last(), i);
    }
}

pub proof fn lemma_cumulative_diff_sum_nonneg(a: Seq<u64>, b: Seq<u64>, n: int)
    ensures
        cumulative_diff_sum(a, b, n) >= 0,
    decreases n,
{
    if n > 0 {
        lemma_cumulative_diff_sum_nonneg(a, b, n - 1);
    }
}

pub proof fn lemma_cumulative_diff_sum_monotone(a: Seq<u64>, b: Seq<u64>, n: int, m: int)
    requires
        n <= m,
    ensures
        cumulative_diff_sum(a, b, n) <= cumulative_diff_sum(a, b, m),
    decreases m - n,
{
    if n < m {
        lemma_cumulative_diff_sum_monotone(a, b, n, m - 1);
    }
}

/// Each boundary term is at most the larger of the two total masses.
pub proof fn lemma_cumulative_diff_sum_bound(a: Seq<u64>, b: Seq<u64>, n: int, s: int)
    requires
        0 <= n <= a.len(),
        n <= b.len(),
        mass_sum(a) <= s,
        mass_sum(b) <= s,
        s >= 0,
    ensures
        cumulative_diff_sum(a, b, n) <= n * s,
    decreases n,
{
    if n > 0 {
        lemma_cumulative_diff_sum_bound(a, b, n - 1, s);
        lemma_mass_sum_take_le(a, n);
        lemma_mass_sum_take_le(b, n);
        lemma_mass_sum_nonneg(a.take(n));
        lemma_mass_sum_nonneg(b.take(n));
        assert((n - 1) * s + s == n * s) by (nonlinear_arith);
    }
}

/// When the total masses are equal, the distance is bounded by
/// (length - 1) times the total mass: the final boundary term is zero.
pub proof fn lemma_wasserstein_dist_1d_bound(a: Seq<u64>, b: Seq<u64>)
    requires
        a.len() == b.len(),
        mass_sum(a) == mass_sum(b),
    ensures
        a.len() >= 1 ==> wasserstein_dist_1d(a, b) <= (a.len() - 1) * mass_sum(a),
        a.len() == 0 ==> wasserstein_dist_1d(a, b) == 0,
{
    let n = a.len() as int;
    if n >= 1 {
        lemma_mass_sum_nonneg(a);
        lemma_cumulative_diff_sum_bound(a, b, n - 1, mass_sum(a));
        assert(a.take(n) =~= a);
        assert(b.take(n) =~= b);
    }
}

proof fn lemma_cumulative_diff_sum_symmetric(a: Seq<u64>, b: Seq<u64>, n: int)
    ensures
        cumulative_diff_sum(a, b, n) == cumulative_diff_sum(b, a, n),
    decreases n,
{
    if n > 0 {
        lemma_cumulative_diff_sum_symmetric(a, b, n - 1);
    }
}

/// Law: the distance is symmetric, `d(a, b) == d(b, a)`, for every pair of
/// distributions of equal length.
pub proof fn lemma_distance_symmetric(a: Seq<u64>, b: Seq<u64>)
    requires
        a.len() == b.len(),
    ensures
        wasserstein_dist_1d(a, b) == wasserstein_dist_1d(b, a),
{
    lemma_cumulative_diff_sum_symmetric(a, b, a.len() as int);
}

proof fn lemma_cumulative_diff_sum_identity(a: Seq<u64>, n: int)
    ensures
        cumulative_diff_sum(a, a, n) == 0,
    decreases n,
{
    if n > 0 {
        lemma_cumulative_diff_sum_identity(a, n - 1);
    }
}

/// Law: the distance of a distribution to itself is zero.
pub proof fn lemma_distance_identity(a: Seq<u64>)
    ensures
        wasserstein_dist_1d(a, a) == 0,
{
    lemma_cumulative_diff_sum_identity(a, a.len() as int);
}

/// Law: the distance is never negative.
pub proof fn lemma_distance_nonnegative(a: Seq<u64>, b: Seq<u64>)
    ensures
        wasserstein_dist_1d(a, b) >= 0,
{
    lemma_cumulative_diff_sum_nonneg(a, b, a.len() as int);
}

/// Every mass of a distribution multiplied by the same constant.
pub open spec fn scaled(s: Seq<u64>, c: u64) -> Seq<u64> {
    Seq::new(s.len(), |i: int| (s[i] * c) as u64)
}

/// Scaling every mass scales the total mass by the same constant.
pub proof fn lemma_mass_sum_scaled(s: Seq<u64>, c: u64)
    requires
        forall|i: int| 0 <= i < s.len() ==> s[i] * c <= u64::MAX,
    ensures
        mass_sum(scaled(s, c)) == c * mass_sum(s),
    decreases s.len(),
{
    if s.len() == 0 {
        assert(c * 0 == 0) by (nonlinear_arith);
    } else {
        assert(scaled(s, c).drop_last() =~= scaled(s.drop_last(), c));
        lemma_mass_sum_scaled(s.drop_last(), c);
        assert(scaled(s, c).last() == s.last() * c);
        assert(c * mass_sum(s.drop_last()) + (s.last() * c) == c * (mass_sum(s.drop_last())
            + s.last())) by (nonlinear_arith);
    }
}

proof fn lemma_cumulative_diff_sum_scaled(a: Seq<u64>, b: Seq<u64>, c: u64, n: int)
    requires
        forall|i: int| 0 <= i < a.len() ==> a[i] * c <= u64::MAX,
        forall|i: int| 0 <= i < b.len() ==> b[i] * c <= u64::MAX,
        n <= a.len(),
        n <= b.len(),
    ensures
        cumulative_diff_sum(scaled(a, c), scaled(b, c), n) == c * cumulative_diff_sum(a, b, n),
    decreases n,
{
    if n <= 0 {
        assert(c * 0 == 0) by (nonlinear_arith);
    } else {
        lemma_cumulative_diff_sum_scaled(a, b, c, n - 1);
        assert(scaled(a, c).take(n) =~= scaled(a.take(n), c));
        assert(scaled(b, c).take(n) =~= scaled(b.take(n), c));
        lemma_mass_sum_scaled(a.take(n), c);
        lemma_mass_sum_scaled(b.take(n), c);
        let x = mass_sum(a.take(n));
        let y = mass_sum(b.take(n));
        assert(abs_diff(c * x, c * y) == c * abs_diff(x, y)) by (nonlinear_arith);
        assert(c * cumulative_diff_sum(a, b, n - 1) + c * abs_diff(x, y) == c * (
        cumulative_diff_sum(a, b, n - 1) + abs_diff(x, y))) by (nonlinear_arith);
    }
}

/// Law: multiplying every mass in both inputs by the same positive constant
/// `c` scales the distance by `c` (stated for scalings that stay within the
/// machine's integer range).
pub proof fn lemma_distance_scale(a: Seq<u64>, b: Seq<u64>, c: u64)
    requires
        a.len() == b.len(),
        c >= 1,
        forall|i: int| 0 <= i < a.len() ==> a[i] * c <= u64::MAX,
        forall|i: int| 0 <= i < b.len() ==> b[i] * c <= u64::MAX,
    ensures
        wasserstein_dist_1d(scaled(a, c), scaled(b, c)) == c * wasserstein_dist_1d(a, b),
        mass_sum(scaled(a, c)) == c * mass_sum(a),
        mass_sum(scaled(b, c)) == c * mass_sum(b),
{
    lemma_cumulative_diff_sum_scaled(a, b, c, a.len() as int);
    lemma_mass_sum_scaled(a, c);
    lemma_mass_sum_scaled(b, c);
}

/// Sign of a mathematical integer.
pub open spec fn sgn(x: int) -> int {
    if x > 0 {
        1
    } else if x < 0 {
        -1
    } else {
        0
    }
}

/// Difference of the cumulative masses after the first `x` cells.
pub open spec fn cum_diff(a: Seq<u64>, b: Seq<u64>, x: int) -> int {
    mass_sum(a.take(x)) - mass_sum(b.take(x))
}

/// Running sum of the signs of the cumulative differences: a 1-Lipschitz
/// staircase whose negation prices each cell of the line optimally.
pub open spec fn line_height(a: Seq<u64>, b: Seq<u64>, x: int) -> int
    decreases x,
{
    if x <= 0 {
        0
    } else {
        line_height(a, b, x - 1) + sgn(cum_diff(a, b, x))
    }
}

/// The staircase moves by at most one per cell, so it is 1-Lipschitz.
pub proof fn lemma_line_height_lipschitz(a: Seq<u64>, b: Seq<u64>, y: int, x: int)
    requires
        0 <= y <= x,
    ensures
        line_height(a, b, y) - (x - y) <= line_height(a, b, x) <= line_height(a, b, y) + (x - y),
    decreases x - y,
{
    if y < x {
        lemma_line_height_lipschitz(a, b, y, x - 1);
    }
}

/// Weighted cell sum: each of the first `x` cells of `data` weighted by
/// the negated staircase of the pair `(a, b)`.
pub open spec fn priced_mass(a: Seq<u64>, b: Seq<u64>, data: Seq<u64>, x: int) -> int
    decreases x,
{
    if x <= 0 {
        0
    } else {
        priced_mass(a, b, data, x - 1) + (0 - line_height(a, b, x - 1)) * data[x - 1]
    }
}

pub proof fn lemma_priced_mass_congruence(a: Seq<u64>, b: Seq<u64>, data: Seq<u64>, x: int)
    requires
        0 <= x < data.len(),
    ensures
        priced_mass(a, b, data, x) == priced_mass(a, b, data.drop_last(), x),
    decreases x,
{
    if x > 0 {
        lemma_priced_mass_congruence(a, b, data, x - 1);
    }
}

/// Summation by parts: pricing both distributions by the negated staircase
/// recovers the running cumulative-difference sum, up to a boundary term
/// that vanishes when the totals agree.
proof fn lemma_line_height_abel(a: Seq<u64>, b: Seq<u64>, j: int)
    requires
        0 <= j <= a.len(),
        j <= b.len(),
    ensures
        priced_mass(a, b, a, j) - priced_mass(a, b, b, j) == cumulative_diff_sum(a, b, j)
            - line_height(a, b, j) * cum_diff(a, b, j),
    decreases j,
{
    if j == 0 {
        assert(a.take(0) =~= Seq::<u64>::empty());
        assert(b.take(0) =~= Seq::<u64>::empty());
        assert(line_height(a, b, 0) * cum_diff(a, b, 0) == 0) by (nonlinear_arith)
            requires
                cum_diff(a, b, 0) == 0,
        ;
    } else {
        lemma_line_height_abel(a, b, j - 1);
        lemma_mass_sum_take_succ(a, j - 1);
        lemma_mass_sum_take_succ(b, j - 1);
        let dprev = cum_diff(a, b, j - 1);
        let dcur = cum_diff(a, b, j);
        let gprev = line_height(a, b, j - 1);
        let sg = sgn(dcur);
        assert(dcur == dprev + a[j - 1] - b[j - 1]);
        assert(abs_diff(mass_sum(a.take(j)), mass_sum(b.take(j))) == sg * dcur) by (nonlinear_arith)
            requires
                sg == sgn(dcur),
                dcur == mass_sum(a.take(j)) - mass_sum(b.take(j)),
        ;
        assert((0 - gprev) * (a[j - 1] as int) - (0 - gprev) * (b[j - 1] as int) == (0 - gprev) * (
        dcur - dprev)) by (nonlinear_arith)
            requires
                dcur - dprev == a[j - 1] - b[j - 1],
        ;
        assert(sg * dcur - (gprev + sg) * dcur + gprev * dprev == (0 - gprev) * (dcur - dprev))
            by (nonlinear_arith);
    }
}

/// Pricing a balanced pair by the negated staircase yields exactly the
/// closed-form distance.
pub proof fn lemma_line_height_objective(a: Seq<u64>, b: Seq<u64>)
    requires
        a.len() == b.len(),
        mass_sum(a) == mass_sum(b),
    ensures
        priced_mass(a, b, a, a.len() as int) - priced_mass(a, b, b, a.len() as int)
            == wasserstein_dist_1d(a, b),
{
    let n = a.len() as int;
    lemma_line_height_abel(a, b, n);
    assert(a.take(n) =~= a);
    assert(b.take(n) =~= b);
    assert(line_height(a, b, n) * cum_diff(a, b, n) == 0) by (nonlinear_arith)
        requires
            cum_diff(a, b, n) == 0,
    ;
}

/// Exact total mass of a distribution; a 128-bit accumulator cannot
/// overflow on any sequence of 64-bit masses.
pub fn total_mass(v: &Vec<u64>) -> (s: u128)
    ensures
        s == mass_sum(v@),
{
    let n = v.len();
    let mut s: u128 = 0;
    let mut i: usize = 0;
    while i < n
        invariant
            n == v@.len(),
            i <= n,
            s == mass_sum(v@.take(i as int)),
        decreases n - i,
    {
        proof {
            lemma_mass_sum_take_succ(v@, i as int);
            lemma_mass_sum_len_bound(v@.take(i as int));
            assert((i as int) * (u64::MAX as int) + (u64::MAX as int) <= u128::MAX as int)
                by (nonlinear_arith)
                requires
                    0 <= i as int <= u64::MAX,
            ;
        }
        s = s + v[i] as u128;
        i = i + 1;
    }
    proof {
        assert(v@.take(n as int) =~= v@);
    }
    s
}

/// Computes the Wasserstein-1 distance between two one-dimensional mass
/// distributions by the closed-form cumulative-difference algorithm.
///
/// Succeeds exactly when the two sequences have the same length and the
/// same total mass, and then returns exactly the closed-form distance.
pub fn distance_1d(left: &Vec<u64>, right: &Vec<u64>) -> (r: Result<u64, Error>)
    requires
        (left@.len() == right@.len() && mass_sum(left@) == mass_sum(right@)) ==> (mass_sum(left@)
            <= u64::MAX && wasserstein_dist_1d(left@, right@) <= u64::MAX),
    ensures
        match r {
            Ok(d) => left@.len() == right@.len() && mass_sum(left@) == mass_sum(right@) && d
                == wasserstein_dist_1d(left@, right@),
            Err(Error::ShapeMismatch) => left@.len() != right@.len(),
            Err(Error::ImbalancedMass) => left@.len() == right@.len() && mass_sum(left@)
                != mass_sum(right@),
            Err(_) => false,
        },
{
    if left.len() != right.len() {
        return Err(Error::ShapeMismatch);
    }
    let n = left.len();
    let mut sum_left: u128 = 0;
    let mut sum_right: u128 = 0;
    let mut i: usize = 0;
    while i < n
        invariant
            n == left@.len(),
            n == right@.len(),
            i <= n,
            sum_left == mass_sum(left@.take(i as int)),
            sum_right == mass_sum(right@.take(i as int)),
        decreases n - i,
    {
        proof {
            lemma_mass_sum_take_succ(left@, i as int);
            lemma_mass_sum_take_succ(right@, i as int);
            lemma_mass_sum_len_bound(left@.take(i as int));
            lemma_mass_sum_len_bound(right@.take(i as int));
            assert((i as int) * (u64::MAX as int) + (u64::MAX as int) <= u128::MAX as int)
                by (nonlinear_arith)
                requires
                    0 <= i as int <= u64::MAX,
            ;
        }
        sum_left = sum_left + left[i] as u128;
        sum_right = sum_right + right[i] as u128;
        i = i + 1;
    }
    proof {
        assert(left@.take(n as int) =~= left@);
        assert(right@.take(n as int) =~= right@);
    }
    if sum_left != sum_right {
        return Err(Error::ImbalancedMass);
    }
    let mut cum_left: u64 = 0;
    let mut cum_right: u64 = 0;
    let mut dist: u64 = 0;
    let mut j: usize = 0;
    while j < n
        invariant
            n == left@.len(),
            n == right@.len(),
            j <= n,
            mass_sum(left@) == mass_sum(right@),
            mass_sum(left@) <= u64::MAX,
            wasserstein_dist_1d(left@, right@) <= u64::MAX,
            cum_left == mass_sum(left@.take(j as int)),
            cum_right == mass_sum(right@.take(j as int)),
            dist == cumulative_diff_sum(left@, right@, j as int),
        decreases n - j,
    {
        proof {
            lemma_mass_sum_take_succ(left@, j as int);
            lemma_mass_sum_take_succ(right@, j as int);
            lemma_mass_sum_take_le(left@, j as int + 1);
            lemma_mass_sum_take_le(right@, j as int + 1);
            lemma_mass_sum_nonneg(left@.take(j as int));
            lemma_mass_sum_nonneg(right@.take(j as int));
            lemma_cumulative_diff_sum_nonneg(left@, right@, j as int);
            lemma_cumulative_diff_sum_monotone(left@, right@, j as int + 1, n as int);
        }
        cum_left = cum_left + left[j];
        cum_right = cum_right + right[j];
        let step = if cum_left >= cum_right {
            cum_left - cum_right
        } else {
            cum_right - cum_left
        };
        dist = dist + step;
        j = j + 1;
    }
    Ok(dist)
}

/// One-dimensional distance on owned vectors; see [`distance_1d`].
pub fn wasserstein_1d(left: Vec<u64>, right: Vec<u64>) -> (r: Result<u64, Error>)
    requires
        (left@.len() == right@.len() && mass_sum(left@) == mass_sum(right@)) ==> (mass_sum(left@)
            <= u64::MAX && wasserstein_dist_1d(left@, right@) <= u64::MAX),
    ensures
        match r {
            Ok(d) => left@.len() == right@.len() && mass_sum(left@) == mass_sum(right@) && d
                == wasserstein_dist_1d(left@, right@),
            Err(Error::ShapeMismatch) => left@.len() != right@.len(),
            Err(Error::ImbalancedMass) => left@.len() == right@.len() && mass_sum(left@)
                != mass_sum(right@),
            Err(_) => false,
        },
{
    distance_1d(&left, &right)
}

} // verus!
