//! Per-attribute z-score standardization in fixed-point arithmetic.
//!
//! For each attribute index (column), every value is replaced by its
//! deviation from the column mean, divided by the column's population
//! standard deviation, expressed in fixed-point units of `SCALE`. With `n`
//! entities, column values `v_0 .. v_{n-1}`, column sum `s`, scaled deviation
//! `d_i = n * v_i - s` and `ssd = sum(d_i^2)`, the exact z-score is
//! `d_i * n / sqrt(ssd * n)`; the library computes the integer form
//! `SCALE * n * d_i / sqrt_floor(ssd * n)` (truncated towards zero). A column
//! with zero variance (`ssd == 0`) standardizes to all zeros instead of
//! dividing by zero.

use vstd::arithmetic::div_mod::{
    lemma_div_basics, lemma_div_is_ordered, lemma_div_is_ordered_by_denominator,
    lemma_div_multiples_vanish,
};
use vstd::prelude::*;

use crate::cluster::{views_of, Country};
use crate::model::{all_attrs_ok, attrs_ok, ints_of, uniform, CountryView, ATTR_LIMIT, SCALE};

verus! {

/// Largest entity count the standardization arithmetic accepts; keeps
/// `ssd * n` below `2^126` so the square root argument fits in `u128`.
pub const MAX_ENTITIES: usize = 50_000;

/// Sum of a sequence of integers.
pub open spec fn sum_seq(s: Seq<int>) -> int
    decreases s.len(),
{
    if s.len() == 0 {
        0
    } else {
        sum_seq(s.drop_last()) + s.last()
    }
}

/// Truncating (round towards zero) integer division, for positive divisors.
pub open spec fn tdiv(a: int, b: int) -> int {
    if a >= 0 {
        a / b
    } else {
        -((-a) / b)
    }
}

/// Column `j` of an entity set: the `j`-th attribute of every entity.
pub open spec fn col(vs: Seq<CountryView>, j: int) -> Seq<int> {
    Seq::new(vs.len(), |i: int| vs[i].attrs[j])
}

/// Sum of column `j`.
pub open spec fn col_sum(vs: Seq<CountryView>, j: int) -> int {
    sum_seq(col(vs, j))
}

/// Deviation of entity `i` from the mean of column `j`, scaled by `n` to
/// stay an integer: `n * v_ij - sum_j == n * (v_ij - mean_j)`.
pub open spec fn dev(vs: Seq<CountryView>, i: int, j: int) -> int {
    vs.len() * vs[i].attrs[j] - col_sum(vs, j)
}

/// Sum of squared scaled deviations of a plain column.
pub open spec fn ssd_seq(s: Seq<int>) -> int {
    sum_seq(
        Seq::new(
            s.len(),
            |i: int| (s.len() * s[i] - sum_seq(s)) * (s.len() * s[i] - sum_seq(s)),
        ),
    )
}

/// Sum of squared scaled deviations of column `j`.
pub open spec fn col_ssd(vs: Seq<CountryView>, j: int) -> int {
    ssd_seq(col(vs, j))
}

/// `r` is the floor of the square root of `x`.
pub open spec fn is_sqrt(x: int, r: int) -> bool {
    0 <= r && r * r <= x && x < (r + 1) * (r + 1)
}

/// The floor of the square root of a non-negative integer.
pub open spec fn sqrt_floor(x: int) -> int {
    choose|r: int| is_sqrt(x, r)
}

/// The standardized value of entity `i` in column `j`, in fixed-point units:
/// `SCALE * n * d / sqrt_floor(ssd * n)` truncated towards zero, and `0` for
/// a zero-variance column.
pub open spec fn zval(vs: Seq<CountryView>, i: int, j: int) -> int {
    let d = dev(vs, i, j);
    let q = sqrt_floor(col_ssd(vs, j) * vs.len());
    if q == 0 {
        0
    } else {
        tdiv((SCALE as int) * vs.len() * d, q)
    }
}

/// The whole entity set after standardization: same entities, same names,
/// same attribute count, every value replaced by its z-score.
pub open spec fn standardized(vs: Seq<CountryView>) -> Seq<CountryView> {
    Seq::new(
        vs.len(),
        |i: int|
            CountryView {
                name: vs[i].name,
                attrs: Seq::new(vs[i].attrs.len(), |j: int| zval(vs, i, j)),
            },
    )
}

/// The floor square root is unique.
pub proof fn lemma_sqrt_unique(x: int, r1: int, r2: int)
    requires
        is_sqrt(x, r1),
        is_sqrt(x, r2),
    ensures
        r1 == r2,
{
    assert(r1 == r2) by (nonlinear_arith)
        requires
            0 <= r1,
            0 <= r2,
            r1 * r1 <= x,
            x < (r1 + 1) * (r1 + 1),
            r2 * r2 <= x,
            x < (r2 + 1) * (r2 + 1),
    ;
}

/// Extending a prefix sum by one element.
proof fn lemma_sum_take_step(s: Seq<int>, i: int)
    requires
        0 <= i < s.len(),
    ensures
        sum_seq(s.take(i + 1)) == sum_seq(s.take(i)) + s[i],
{
    assert(s.take(i + 1).drop_last() =~= s.take(i));
    assert(s.take(i + 1).last() == s[i]);
}

/// A sum of values bounded by `b` in magnitude is bounded by `len * b`.
proof fn lemma_sum_bound(s: Seq<int>, b: int)
    requires
        0 <= b,
        forall|k: int| 0 <= k < s.len() ==> -b <= #[trigger] s[k] <= b,
    ensures
        -(s.len() * b) <= sum_seq(s) <= s.len() * b,
    decreases s.len(),
{
    if s.len() == 0 {
    } else {
        lemma_sum_bound(s.drop_last(), b);
        assert((s.len() - 1) * b + b == s.len() * b) by (nonlinear_arith);
    }
}

/// A sum of non-negative values is non-negative.
proof fn lemma_sum_nonneg(s: Seq<int>)
    requires
        forall|k: int| 0 <= k < s.len() ==> #[trigger] s[k] >= 0,
    ensures
        sum_seq(s) >= 0,
    decreases s.len(),
{
    if s.len() > 0 {
        lemma_sum_nonneg(s.drop_last());
    }
}

/// Floor square root of a `u128` below `2^126`, by binary search.
pub fn isqrt(x: u128) -> (r: u128)
    requires
        (x as int) < 0x4000_0000_0000_0000_0000_0000_0000_0000,
    ensures
        is_sqrt(x as int, r as int),
        r as int == sqrt_floor(x as int),
{
    let mut lo: u128 = 0;
    let mut hi: u128 = 0x8000_0000_0000_0000;
    proof {
        assert((0x8000_0000_0000_0000 as int) * (0x8000_0000_0000_0000 as int)
            == 0x4000_0000_0000_0000_0000_0000_0000_0000) by (nonlinear_arith);
    }
    while lo + 1 < hi
        invariant
            lo < hi <= 0x8000_0000_0000_0000,
            (lo as int) * (lo as int) <= x as int,
            (x as int) < (hi as int) * (hi as int),
        decreases hi - lo,
    {
        let mid = lo + (hi - lo) / 2;
        proof {
            assert(lo < mid < hi);
            assert((mid as int) * (mid as int) < (hi as int) * (hi as int)) by (nonlinear_arith)
                requires
                    0 <= mid < hi,
            ;
            assert((hi as int) * (hi as int) <= 0x4000_0000_0000_0000_0000_0000_0000_0000)
                by (nonlinear_arith)
                requires
                    0 < hi <= 0x8000_0000_0000_0000,
            ;
        }
        if mid * mid <= x {
            lo = mid;
        } else {
            hi = mid;
        }
    }
    proof {
        assert(hi == lo + 1);
        assert(is_sqrt(x as int, lo as int));
        assert(is_sqrt(x as int, sqrt_floor(x as int)));
        lemma_sqrt_unique(x as int, lo as int, sqrt_floor(x as int));
    }
    lo
}

/// Mean of a non-empty vector of fixed-point values, truncated towards zero.
pub fn avg(v: &Vec<i64>) -> (r: i64)
    requires
        v@.len() > 0,
        attrs_ok(ints_of(v@)),
    ensures
        r as int == tdiv(sum_seq(ints_of(v@)), v@.len() as int),
{
    let ghost s = ints_of(v@);
    let n = v.len();
    let sum = sum_i64(v);
    proof {
        lemma_sum_bound(s, ATTR_LIMIT as int);
    }
    if sum >= 0 {
        let q = (sum as u128) / (n as u128);
        proof {
            lemma_div_is_ordered(sum as int, (n as int) * (ATTR_LIMIT as int), n as int);
            lemma_div_multiples_vanish(ATTR_LIMIT as int, n as int);
        }
        q as i64
    } else {
        let q = ((-sum) as u128) / (n as u128);
        proof {
            lemma_div_is_ordered(-(sum as int), (n as int) * (ATTR_LIMIT as int), n as int);
            lemma_div_multiples_vanish(ATTR_LIMIT as int, n as int);
        }
        -(q as i64)
    }
}

/// Sum of a vector of in-range fixed-point values.
fn sum_i64(v: &Vec<i64>) -> (sum: i128)
    requires
        attrs_ok(ints_of(v@)),
    ensures
        sum as int == sum_seq(ints_of(v@)),
        -(v@.len() * (ATTR_LIMIT as int)) <= sum as int <= v@.len() * (ATTR_LIMIT as int),
{
    let ghost s = ints_of(v@);
    let n = v.len();
    let mut sum: i128 = 0;
    proof {
        assert(s.take(0) =~= Seq::<int>::empty());
    }
    for i in 0..n
        invariant
            n == v@.len(),
            s == ints_of(v@),
            attrs_ok(s),
            s.len() == n,
            sum as int == sum_seq(s.take(i as int)),
            -((i as int) * (ATTR_LIMIT as int)) <= sum as int <= (i as int) * (ATTR_LIMIT as int),
    {
        proof {
            lemma_sum_take_step(s, i as int);
            assert(s[i as int] == v@[i as int] as int);
        }
        sum = sum + (v[i] as i128);
    }
    proof {
        assert(s.take(n as int) =~= s);
    }
    sum
}

/// Population standard deviation of a non-empty column, in fixed-point
/// units, truncated towards zero: `sqrt_floor(ssd * n) / n^2`.
pub fn std_val(v: &Vec<i64>) -> (r: i64)
    requires
        0 < v@.len() <= MAX_ENTITIES as int,
        attrs_ok(ints_of(v@)),
    ensures
        r as int == sqrt_floor(ssd_seq(ints_of(v@)) * v@.len()) / ((v@.len() * v@.len()) as int),
{
    let ghost s = ints_of(v@);
    let n = v.len();
    let sum = sum_i64(v);
    let ssd = ssd_u128(v, sum);
    proof {
        lemma_ssd_arg_in_range(ssd as int, n as int, 4 * (n as int) * (n as int) * (
        ATTR_LIMIT as int) * (ATTR_LIMIT as int));
    }
    let q = isqrt(ssd * (n as u128));
    proof {
        assert((q as int) * (q as int) < 0x4000_0000_0000_0000_0000_0000_0000_0000);
        assert((q as int) < 0x8000_0000_0000_0000) by (nonlinear_arith)
            requires
                0 <= q as int,
                (q as int) * (q as int) < 0x4000_0000_0000_0000_0000_0000_0000_0000,
        ;
        assert(1 <= (n as int) * (n as int) <= 0x9184E72A000) by (nonlinear_arith)
            requires
                1 <= n as int <= 50_000,
        ;
        lemma_div_is_ordered_by_denominator(q as int, 1, (n as int) * (n as int));
        assert(q as int / 1int == q as int);
    }
    let q2 = q / ((n as u128) * (n as u128));
    q2 as i64
}

/// Sum of squared scaled deviations of a column, given the column's sum.
fn ssd_u128(v: &Vec<i64>, sum: i128) -> (ssd: u128)
    requires
        0 < v@.len() <= MAX_ENTITIES as int,
        attrs_ok(ints_of(v@)),
        sum as int == sum_seq(ints_of(v@)),
        -(v@.len() * (ATTR_LIMIT as int)) <= sum as int <= v@.len() * (ATTR_LIMIT as int),
    ensures
        ssd as int == ssd_seq(ints_of(v@)),
        ssd as int <= v@.len() * (4 * v@.len() * v@.len() * (ATTR_LIMIT as int) * (
        ATTR_LIMIT as int)),
{
    let ghost s = ints_of(v@);
    let ghost sq = Seq::new(
        s.len(),
        |i: int| (s.len() * s[i] - sum_seq(s)) * (s.len() * s[i] - sum_seq(s)),
    );
    let ghost t = 4 * s.len() * s.len() * (ATTR_LIMIT as int) * (ATTR_LIMIT as int);
    let n = v.len();
    let mut ssd: u128 = 0;
    proof {
        assert(sq.take(0) =~= Seq::<int>::empty());
        assert(t <= 0x4000_0000_0000_0000_0000_0000_0000_0000) by (nonlinear_arith)
            requires
                1 <= s.len() <= 50_000,
                t == 4 * s.len() * s.len() * (ATTR_LIMIT as int) * (ATTR_LIMIT as int),
        ;
    }
    for i in 0..n
        invariant
            n == v@.len(),
            0 < n <= MAX_ENTITIES,
            s == ints_of(v@),
            attrs_ok(s),
            s.len() == n,
            sum as int == sum_seq(s),
            -(s.len() * (ATTR_LIMIT as int)) <= sum as int <= s.len() * (ATTR_LIMIT as int),
            sq == Seq::new(
                s.len(),
                |i: int| (s.len() * s[i] - sum_seq(s)) * (s.len() * s[i] - sum_seq(s)),
            ),
            t == 4 * s.len() * s.len() * (ATTR_LIMIT as int) * (ATTR_LIMIT as int),
            ssd as int == sum_seq(sq.take(i as int)),
            0 <= ssd as int <= (i as int) * t,
    {
        proof {
            lemma_sum_take_step(sq, i as int);
            assert(s[i as int] == v@[i as int] as int);
            lemma_dev_sq_bound(s.len() as int, s[i as int], sum as int, ATTR_LIMIT as int);
            assert((i as int) * t + t == ((i + 1) as int) * t) by (nonlinear_arith);
            assert(((i + 1) as int) * t <= s.len() * t) by (nonlinear_arith)
                requires
                    0 <= t,
                    (i + 1) as int <= s.len(),
            ;
            assert(s.len() * t < 0x8000_0000_0000_0000_0000_0000_0000_0000) by (nonlinear_arith)
                requires
                    1 <= s.len() <= 50_000,
                    t == 4 * s.len() * s.len() * (ATTR_LIMIT as int) * (ATTR_LIMIT as int),
            ;
            assert(-(50_000 * (ATTR_LIMIT as int)) <= (n as int) * (v@[i as int] as int) <= 50_000
                * (ATTR_LIMIT as int)) by (nonlinear_arith)
                requires
                    1 <= n as int <= 50_000,
                    -(ATTR_LIMIT as int) <= v@[i as int] as int <= ATTR_LIMIT as int,
            ;
        }
        let di: i128 = (n as i128) * (v[i] as i128) - sum;
        ssd = ssd + ((di * di) as u128);
    }
    proof {
        assert(sq.take(n as int) =~= sq);
        assert((n as int) * t == v@.len() * (4 * v@.len() * v@.len() * (ATTR_LIMIT as int) * (
        ATTR_LIMIT as int))) by (nonlinear_arith)
            requires
                t == 4 * (n as int) * (n as int) * (ATTR_LIMIT as int) * (ATTR_LIMIT as int),
                n as int == v@.len(),
        ;
    }
    ssd
}

/// The squared scaled deviation of one in-range value is non-negative and at
/// most `4 n^2 L^2`.
proof fn lemma_dev_sq_bound(n: int, x: int, sum: int, lim: int)
    requires
        1 <= n,
        0 <= lim,
        -lim <= x <= lim,
        -(n * lim) <= sum <= n * lim,
    ensures
        0 <= (n * x - sum) * (n * x - sum) <= 4 * n * n * lim * lim,
{
    assert(0 <= (n * x - sum) * (n * x - sum) <= 4 * n * n * lim * lim) by (nonlinear_arith)
        requires
            1 <= n,
            0 <= lim,
            -lim <= x <= lim,
            -(n * lim) <= sum <= n * lim,
    ;
}

/// A sum of non-negative values dominates each of its terms.
proof fn lemma_sum_ge_term(s: Seq<int>, k: int)
    requires
        forall|t: int| 0 <= t < s.len() ==> #[trigger] s[t] >= 0,
        0 <= k < s.len(),
    ensures
        sum_seq(s) >= s[k],
    decreases s.len(),
{
    if k == s.len() - 1 {
        lemma_sum_nonneg(s.drop_last());
    } else {
        lemma_sum_ge_term(s.drop_last(), k);
    }
}

/// The floor square root of `x` dominates every non-negative `a` with
/// `a * a <= x`.
proof fn lemma_sqrt_dominates(x: int, q: int, a: int)
    requires
        is_sqrt(x, q),
        0 <= a,
        a * a <= x,
    ensures
        q >= a,
{
    assert(q >= a) by (nonlinear_arith)
        requires
            0 <= q,
            0 <= a,
            a * a <= x,
            x < (q + 1) * (q + 1),
    ;
}

/// The column's square-root divisor dominates every scaled deviation of that
/// column, which is what bounds the standardized values.
proof fn lemma_q_dominates_dev(vs: Seq<CountryView>, i: int, j: int, q: int)
    requires
        0 < vs.len(),
        0 <= i < vs.len(),
        0 <= j,
        is_sqrt(col_ssd(vs, j) * vs.len(), q),
    ensures
        q >= dev(vs, i, j),
        q >= -dev(vs, i, j),
{
    let s = col(vs, j);
    let sq = Seq::new(
        s.len(),
        |k: int| (s.len() * s[k] - sum_seq(s)) * (s.len() * s[k] - sum_seq(s)),
    );
    assert forall|k: int| 0 <= k < sq.len() implies #[trigger] sq[k] >= 0 by {
        let t = s.len() * s[k] - sum_seq(s);
        assert(t * t >= 0) by (nonlinear_arith);
    }
    lemma_sum_ge_term(sq, i);
    let dv = dev(vs, i, j);
    assert(sq[i] == dv * dv);
    assert(col_ssd(vs, j) * vs.len() >= dv * dv) by (nonlinear_arith)
        requires
            col_ssd(vs, j) >= dv * dv,
            dv * dv >= 0,
            vs.len() >= 1,
    ;
    assert((-dv) * (-dv) == dv * dv) by (nonlinear_arith);
    lemma_sqrt_dominates(col_ssd(vs, j) * vs.len(), q, if dv >= 0 { dv } else { -dv });
}

/// One standardized value: `SCALE * n * di / q`, truncated towards zero.
fn zscore(di: i128, q: u128, n: usize) -> (z: i64)
    requires
        1 <= n as int <= MAX_ENTITIES as int,
        1 <= q as int,
        -(2 * (n as int) * (ATTR_LIMIT as int)) <= di as int <= 2 * (n as int) * (
        ATTR_LIMIT as int),
        di as int <= q as int,
        -(di as int) <= q as int,
    ensures
        z as int == tdiv((SCALE as int) * (n as int) * (di as int), q as int),
        -((SCALE as int) * (n as int)) <= z as int <= (SCALE as int) * (n as int),
{
    let abs: u128 = if di >= 0 {
        di as u128
    } else {
        (-di) as u128
    };
    proof {
        assert((SCALE as int) * (n as int) * (abs as int) <= (SCALE as int) * (n as int) * (2 * (
        n as int) * (ATTR_LIMIT as int)) < 0x8000_0000_0000_0000_0000_0000_0000_0000)
            by (nonlinear_arith)
            requires
                1 <= n as int <= 50_000,
                0 <= abs as int <= 2 * (n as int) * (ATTR_LIMIT as int),
        ;
    }
    let num: u128 = (SCALE as u128) * (n as u128) * abs;
    let zz: u128 = num / q;
    proof {
        if abs == 0 {
            lemma_div_basics(q as int);
            assert(num as int == 0) by (nonlinear_arith)
                requires
                    num as int == (SCALE as int) * (n as int) * (abs as int),
                    abs as int == 0,
            ;
            assert(zz == 0);
        } else {
            lemma_div_is_ordered_by_denominator(num as int, abs as int, q as int);
            lemma_div_multiples_vanish((SCALE as int) * (n as int), abs as int);
            assert(num as int == (abs as int) * ((SCALE as int) * (n as int))) by (nonlinear_arith)
                requires
                    num as int == (SCALE as int) * (n as int) * (abs as int),
            ;
        }
        assert(0 <= zz as int <= (SCALE as int) * (n as int));
        assert((SCALE as int) * (n as int) <= 50_000_000) by (nonlinear_arith)
            requires
                1 <= n as int <= 50_000,
        ;
        if di >= 0 {
            assert((SCALE as int) * (n as int) * (di as int) == num as int) by (nonlinear_arith)
                requires
                    num as int == (SCALE as int) * (n as int) * (abs as int),
                    abs as int == di as int,
            ;
        } else {
            assert((SCALE as int) * (n as int) * (di as int) == -(num as int)) by (nonlinear_arith)
                requires
                    num as int == (SCALE as int) * (n as int) * (abs as int),
                    abs as int == -(di as int),
            ;
        }
    }
    if di >= 0 {
        zz as i64
    } else {
        -(zz as i64)
    }
}

/// Sum of column `j` of the entity set.
fn col_sum_exec(v: &Vec<Country>, j: usize) -> (s: i128)
    requires
        0 < v@.len() <= MAX_ENTITIES as int,
        all_attrs_ok(views_of(v@)),
        uniform(views_of(v@)),
        (j as int) < views_of(v@)[0].attrs.len(),
    ensures
        s as int == col_sum(views_of(v@), j as int),
        -(v@.len() * (ATTR_LIMIT as int)) <= s as int <= v@.len() * (ATTR_LIMIT as int),
{
    let ghost vs = views_of(v@);
    let ghost c = col(vs, j as int);
    let n = v.len();
    let mut s: i128 = 0;
    proof {
        assert(c.take(0) =~= Seq::<int>::empty());
    }
    for i in 0..n
        invariant
            n == v@.len(),
            0 < n <= MAX_ENTITIES,
            vs == views_of(v@),
            all_attrs_ok(vs),
            uniform(vs),
            (j as int) < vs[0].attrs.len(),
            c == col(vs, j as int),
            c.len() == n,
            s as int == sum_seq(c.take(i as int)),
            -((i as int) * (ATTR_LIMIT as int)) <= s as int <= (i as int) * (ATTR_LIMIT as int),
    {
        proof {
            lemma_sum_take_step(c, i as int);
            assert(vs[i as int] == v@[i as int]@);
            assert(c[i as int] == vs[i as int].attrs[j as int]);
            assert(attrs_ok(vs[i as int].attrs));
        }
        s = s + (v[i].attrs[j] as i128);
    }
    proof {
        assert(c.take(n as int) =~= c);
    }
    s
}

/// Floor square root of `ssd * n` for column `j`, given the column's sum.
fn col_q_exec(v: &Vec<Country>, j: usize, sum: i128) -> (q: u128)
    requires
        0 < v@.len() <= MAX_ENTITIES as int,
        all_attrs_ok(views_of(v@)),
        uniform(views_of(v@)),
        (j as int) < views_of(v@)[0].attrs.len(),
        sum as int == col_sum(views_of(v@), j as int),
        -(v@.len() * (ATTR_LIMIT as int)) <= sum as int <= v@.len() * (ATTR_LIMIT as int),
    ensures
        q as int == sqrt_floor(col_ssd(views_of(v@), j as int) * v@.len()),
        is_sqrt(col_ssd(views_of(v@), j as int) * v@.len(), q as int),
{
    let ghost vs = views_of(v@);
    let ghost c = col(vs, j as int);
    let ghost sq = Seq::new(
        c.len(),
        |k: int| (c.len() * c[k] - sum_seq(c)) * (c.len() * c[k] - sum_seq(c)),
    );
    let ghost t = 4 * c.len() * c.len() * (ATTR_LIMIT as int) * (ATTR_LIMIT as int);
    let n = v.len();
    let mut ssd: u128 = 0;
    proof {
        assert(sq.take(0) =~= Seq::<int>::empty());
        assert(t <= 0x4000_0000_0000_0000_0000_0000_0000_0000) by (nonlinear_arith)
            requires
                1 <= c.len() <= 50_000,
                t == 4 * c.len() * c.len() * (ATTR_LIMIT as int) * (ATTR_LIMIT as int),
        ;
    }
    for i in 0..n
        invariant
            n == v@.len(),
            0 < n <= MAX_ENTITIES,
            vs == views_of(v@),
            all_attrs_ok(vs),
            uniform(vs),
            (j as int) < vs[0].attrs.len(),
            c == col(vs, j as int),
            c.len() == n,
            sum as int == sum_seq(c),
            -(c.len() * (ATTR_LIMIT as int)) <= sum as int <= c.len() * (ATTR_LIMIT as int),
            sq == Seq::new(
                c.len(),
                |k: int| (c.len() * c[k] - sum_seq(c)) * (c.len() * c[k] - sum_seq(c)),
            ),
            t == 4 * c.len() * c.len() * (ATTR_LIMIT as int) * (ATTR_LIMIT as int),
            ssd as int == sum_seq(sq.take(i as int)),
            0 <= ssd as int <= (i as int) * t,
    {
        proof {
            lemma_sum_take_step(sq, i as int);
            assert(vs[i as int] == v@[i as int]@);
            assert(c[i as int] == vs[i as int].attrs[j as int]);
            assert(attrs_ok(vs[i as int].attrs));
            lemma_dev_sq_bound(c.len() as int, c[i as int], sum as int, ATTR_LIMIT as int);
            assert((i as int) * t + t == ((i + 1) as int) * t) by (nonlinear_arith);
            assert(((i + 1) as int) * t <= c.len() * t) by (nonlinear_arith)
                requires
                    0 <= t,
                    (i + 1) as int <= c.len(),
            ;
            assert(c.len() * t < 0x8000_0000_0000_0000_0000_0000_0000_0000) by (nonlinear_arith)
                requires
                    1 <= c.len() <= 50_000,
                    t == 4 * c.len() * c.len() * (ATTR_LIMIT as int) * (ATTR_LIMIT as int),
            ;
            assert(-(50_000 * (ATTR_LIMIT as int)) <= (n as int) * (v@[i as int].attrs@[
            j as int] as int) <= 50_000 * (ATTR_LIMIT as int)) by (nonlinear_arith)
                requires
                    1 <= n as int <= 50_000,
                    -(ATTR_LIMIT as int) <= v@[i as int].attrs@[j as int] as int <= ATTR_LIMIT as int,
        ;
        }
        let di: i128 = (n as i128) * (v[i].attrs[j] as i128) - sum;
        ssd = ssd + ((di * di) as u128);
    }
    proof {
        assert(sq.take(n as int) =~= sq);
        assert(ssd as int == col_ssd(vs, j as int));
        lemma_ssd_arg_in_range(ssd as int, n as int, t);
    }
    isqrt(ssd * (n as u128))
}

/// Standardizes every attribute column of the entity set in place: each
/// value becomes its fixed-point z-score per `standardized`; a zero-variance
/// column becomes all zeros. A no-op when the entity set is empty or the
/// attribute vectors are empty.
pub fn std_countries(v: &mut Vec<Country>)
    requires
        old(v)@.len() <= MAX_ENTITIES as int,
        uniform(views_of(old(v)@)),
        all_attrs_ok(views_of(old(v)@)),
    ensures
        views_of(final(v)@) == standardized(views_of(old(v)@)),
        final(v)@.len() == old(v)@.len(),
        uniform(views_of(final(v)@)),
        all_attrs_ok(views_of(final(v)@)),
{
    let ghost vs = views_of(old(v)@);
    let n = v.len();
    if n == 0 {
        proof {
            assert(views_of(v@) =~= standardized(vs));
        }
        return;
    }
    let d = v[0].attrs.len();
    proof {
        assert(vs[0] == v@[0]@);
        assert(d as int == vs[0].attrs.len());
    }
    if d == 0 {
        proof {
            assert forall|i: int| 0 <= i < vs.len() implies standardized(vs)[i] == vs[i] by {
                assert(vs[i].attrs.len() == 0);
                assert(standardized(vs)[i].attrs =~= vs[i].attrs);
                assert(standardized(vs)[i] =~= vs[i]);
            }
            assert(views_of(v@) =~= standardized(vs));
        }
        return;
    }
    let mut sums: Vec<i128> = Vec::new();
    for j in 0..d
        invariant
            v@ == old(v)@,
            vs == views_of(old(v)@),
            n == vs.len(),
            0 < n <= MAX_ENTITIES,
            uniform(vs),
            all_attrs_ok(vs),
            d as int == vs[0].attrs.len(),
            sums@.len() == j,
            forall|jj: int|
                0 <= jj < j ==> (#[trigger] sums@[jj]) as int == col_sum(vs, jj) && -(vs.len() * (
                ATTR_LIMIT as int)) <= sums@[jj] as int <= vs.len() * (ATTR_LIMIT as int),
    {
        let s = col_sum_exec(v, j);
        sums.push(s);
    }
    let mut qs: Vec<u128> = Vec::new();
    for j in 0..d
        invariant
            v@ == old(v)@,
            vs == views_of(old(v)@),
            n == vs.len(),
            0 < n <= MAX_ENTITIES,
            uniform(vs),
            all_attrs_ok(vs),
            d as int == vs[0].attrs.len(),
            sums@.len() == d,
            forall|jj: int|
                0 <= jj < d ==> (#[trigger] sums@[jj]) as int == col_sum(vs, jj) && -(vs.len() * (
                ATTR_LIMIT as int)) <= sums@[jj] as int <= vs.len() * (ATTR_LIMIT as int),
            qs@.len() == j,
            forall|jj: int|
                0 <= jj < j ==> (#[trigger] qs@[jj]) as int == sqrt_floor(col_ssd(vs, jj) * vs.len())
                    && is_sqrt(col_ssd(vs, jj) * vs.len(), qs@[jj] as int),
    {
        let q = col_q_exec(v, j, sums[j]);
        qs.push(q);
    }
    let mut out: Vec<Country> = Vec::new();
    for i in 0..n
        invariant
            v@ == old(v)@,
            vs == views_of(old(v)@),
            n == vs.len(),
            0 < n <= MAX_ENTITIES,
            uniform(vs),
            all_attrs_ok(vs),
            d as int == vs[0].attrs.len(),
            0 < d,
            sums@.len() == d,
            forall|jj: int|
                0 <= jj < d ==> (#[trigger] sums@[jj]) as int == col_sum(vs, jj) && -(vs.len() * (
                ATTR_LIMIT as int)) <= sums@[jj] as int <= vs.len() * (ATTR_LIMIT as int),
            qs@.len() == d,
            forall|jj: int|
                0 <= jj < d ==> (#[trigger] qs@[jj]) as int == sqrt_floor(col_ssd(vs, jj) * vs.len())
                    && is_sqrt(col_ssd(vs, jj) * vs.len(), qs@[jj] as int),
            out@.len() == i,
            forall|k: int| 0 <= k < i ==> views_of(out@)[k] == standardized(vs)[k],
            forall|k: int| 0 <= k < i ==> attrs_ok(views_of(out@)[k].attrs),
    {
        let name = v[i].name.clone();
        let mut attrs: Vec<i64> = Vec::new();
        proof {
            assert(vs[i as int] == v@[i as int]@);
            assert(attrs_ok(vs[i as int].attrs));
            assert(vs[i as int].attrs.len() == d as int);
        }
        for j in 0..d
            invariant
                v@ == old(v)@,
                vs == views_of(old(v)@),
                n == vs.len(),
                0 < n <= MAX_ENTITIES,
                uniform(vs),
                all_attrs_ok(vs),
                d as int == vs[0].attrs.len(),
                i < n,
                vs[i as int] == v@[i as int]@,
                vs[i as int].attrs.len() == d as int,
                sums@.len() == d,
                forall|jj: int|
                    0 <= jj < d ==> (#[trigger] sums@[jj]) as int == col_sum(vs, jj) && -(vs.len()
                        * (ATTR_LIMIT as int)) <= sums@[jj] as int <= vs.len() * (
                    ATTR_LIMIT as int),
                qs@.len() == d,
                forall|jj: int|
                    0 <= jj < d ==> (#[trigger] qs@[jj]) as int == sqrt_floor(
                        col_ssd(vs, jj) * vs.len(),
                    ) && is_sqrt(col_ssd(vs, jj) * vs.len(), qs@[jj] as int),
                attrs@.len() == j,
                forall|jj: int|
                    0 <= jj < j ==> (#[trigger] attrs@[jj]) as int == zval(vs, i as int, jj),
                forall|jj: int|
                    0 <= jj < j ==> -(ATTR_LIMIT as int) <= (#[trigger] attrs@[jj]) as int
                        <= ATTR_LIMIT as int,
        {
            proof {
                assert(-(ATTR_LIMIT as int) <= vs[i as int].attrs[j as int] <= ATTR_LIMIT as int);
                assert(-((n as int) * (ATTR_LIMIT as int)) <= (n as int) * (v@[i as int].attrs@[
                j as int] as int) <= (n as int) * (ATTR_LIMIT as int)) by (nonlinear_arith)
                    requires
                        1 <= n as int,
                        -(ATTR_LIMIT as int) <= v@[i as int].attrs@[j as int] as int
                            <= ATTR_LIMIT as int,
                ;
                assert((n as int) * (ATTR_LIMIT as int) <= 50_000 * (ATTR_LIMIT as int))
                    by (nonlinear_arith)
                    requires
                        1 <= n as int <= 50_000,
                ;
            }
            let di: i128 = (n as i128) * (v[i].attrs[j] as i128) - sums[j];
            let q = qs[j];
            proof {
                assert(di as int == dev(vs, i as int, j as int));
            }
            let z: i64;
            if q == 0 {
                z = 0;
                proof {
                    assert(zval(vs, i as int, j as int) == 0);
                }
            } else {
                proof {
                    lemma_q_dominates_dev(vs, i as int, j as int, q as int);
                    assert((SCALE as int) * (n as int) <= 50_000_000) by (nonlinear_arith)
                        requires
                            1 <= n as int <= 50_000,
                    ;
                }
                z = zscore(di, q, n);
                proof {
                    assert(z as int == zval(vs, i as int, j as int));
                }
            }
            attrs.push(z);
        }
        let ghost ga = attrs@;
        let ghost gout = out@;
        out.push(Country { name, attrs });
        proof {
            assert(attrs_ok(ints_of(ga))) by {
                assert forall|t: int| 0 <= t < ints_of(ga).len() implies -(ATTR_LIMIT as int)
                    <= #[trigger] ints_of(ga)[t] <= ATTR_LIMIT as int by {
                    assert(ints_of(ga)[t] == ga[t] as int);
                }
            }
            assert forall|k: int| 0 <= k < i + 1 implies views_of(out@)[k] == standardized(vs)[k]
                && attrs_ok(views_of(out@)[k].attrs) by {
                if k < i {
                    assert(views_of(out@)[k] == out@[k]@);
                    assert(out@[k] == gout[k]);
                    assert(views_of(gout)[k] == gout[k]@);
                } else {
                    assert(views_of(out@)[k] == out@[k]@);
                    assert(out@[k]@.attrs == ints_of(ga));
                    assert(views_of(out@)[k].attrs =~= standardized(vs)[k].attrs);
                    assert(views_of(out@)[k].name == vs[k].name);
                    assert(views_of(out@)[k] =~= standardized(vs)[k]);
                }
            }
            assert forall|k: int| 0 <= k < i + 1 implies attrs_ok(
                (#[trigger] views_of(out@)[k]).attrs,
            ) by {
                assert(views_of(out@)[k] == standardized(vs)[k]);
            }
        }
    }
    *v = out;
    proof {
        assert(views_of(v@) =~= standardized(vs));
        assert forall|i: int| 0 <= i < views_of(v@).len() implies (#[trigger] views_of(v@)[i]).attrs.len()
            == views_of(v@)[0].attrs.len() by {
            assert(views_of(v@)[i].attrs.len() == d as int);
            assert(views_of(v@)[0].attrs.len() == d as int);
        }
    }
}

/// Standardization never changes the number of entities, their names, or the
/// length of any attribute vector.
pub proof fn lemma_standardized_shape(vs: Seq<CountryView>)
    ensures
        standardized(vs).len() == vs.len(),
        forall|i: int| 0 <= i < vs.len() ==> (#[trigger] standardized(vs)[i]).name == vs[i].name,
        forall|i: int|
            0 <= i < vs.len() ==> (#[trigger] standardized(vs)[i]).attrs.len()
                == vs[i].attrs.len(),
{
}

/// A column in which every entity has the same value standardizes to all
/// zeros.
pub proof fn lemma_constant_column_zero(vs: Seq<CountryView>, j: int)
    requires
        0 < vs.len(),
        uniform(vs),
        0 <= j < vs[0].attrs.len(),
        forall|i: int| 0 <= i < vs.len() ==> (#[trigger] vs[i]).attrs[j] == vs[0].attrs[j],
    ensures
        forall|i: int| 0 <= i < vs.len() ==> (#[trigger] standardized(vs)[i]).attrs[j] == 0,
{
    let c = col(vs, j);
    lemma_sum_constant(c, vs[0].attrs[j]);
    let sq = Seq::new(
        c.len(),
        |k: int| (c.len() * c[k] - sum_seq(c)) * (c.len() * c[k] - sum_seq(c)),
    );
    assert forall|k: int| 0 <= k < sq.len() implies #[trigger] sq[k] == 0 by {
        assert(c[k] == vs[0].attrs[j]);
        assert(c.len() * c[k] - sum_seq(c) == 0);
    }
    lemma_sum_zero(sq);
    assert(col_ssd(vs, j) * vs.len() == 0) by (nonlinear_arith)
        requires
            col_ssd(vs, j) == 0,
    ;
    assert(is_sqrt(0, 0)) by (nonlinear_arith);
    lemma_sqrt_unique(0, sqrt_floor(0), 0);
    assert forall|i: int| 0 <= i < vs.len() implies (#[trigger] standardized(vs)[i]).attrs[j]
        == 0 by {
        assert(standardized(vs)[i].attrs[j] == zval(vs, i, j));
    }
}

/// The sum of a constant sequence is its length times the constant.
proof fn lemma_sum_constant(s: Seq<int>, x: int)
    requires
        forall|k: int| 0 <= k < s.len() ==> #[trigger] s[k] == x,
    ensures
        sum_seq(s) == s.len() * x,
    decreases s.len(),
{
    if s.len() == 0 {
    } else {
        lemma_sum_constant(s.drop_last(), x);
        assert((s.len() - 1) * x + x == s.len() * x) by (nonlinear_arith);
    }
}

/// The sum of an all-zero sequence is zero.
proof fn lemma_sum_zero(s: Seq<int>)
    requires
        forall|k: int| 0 <= k < s.len() ==> #[trigger] s[k] == 0,
    ensures
        sum_seq(s) == 0,
{
    lemma_sum_constant(s, 0);
    assert(s.len() * 0 == 0) by (nonlinear_arith);
}

/// `ssd * n` stays below `2^126` when `ssd <= n * t` for the column bound `t`.
proof fn lemma_ssd_arg_in_range(ssd: int, n: int, t: int)
    requires
        1 <= n <= 50_000,
        t == 4 * n * n * (ATTR_LIMIT as int) * (ATTR_LIMIT as int),
        0 <= ssd <= n * t,
    ensures
        ssd * n < 0x4000_0000_0000_0000_0000_0000_0000_0000,
{
    assert(ssd * n < 0x4000_0000_0000_0000_0000_0000_0000_0000) by (nonlinear_arith)
        requires
            1 <= n <= 50_000,
            t == 4 * n * n * (ATTR_LIMIT as int) * (ATTR_LIMIT as int),
            0 <= ssd <= n * t,
    ;
}

} // verus!
