//! Distance metrics and exact vector arithmetic over fixed-point embeddings.
use vstd::prelude::*;
use crate::embedding::{coords_ok, Embedding, COORD_LIMIT, MAX_DIMS};

verus! {

/// Squared-difference sum of two coordinate sequences.
pub open spec fn sum_sq_diff(a: Seq<i64>, b: Seq<i64>) -> int
    recommends
        a.len() == b.len(),
    decreases a.len(),
{
    if a.len() == 0 {
        0
    } else {
        sum_sq_diff(a.drop_last(), b.drop_last()) + (a.last() - b.last()) * (a.last()
            - b.last())
    }
}

/// Absolute-difference sum of two coordinate sequences.
pub open spec fn sum_abs_diff(a: Seq<i64>, b: Seq<i64>) -> int
    recommends
        a.len() == b.len(),
    decreases a.len(),
{
    if a.len() == 0 {
        0
    } else {
        sum_abs_diff(a.drop_last(), b.drop_last()) + abs_int(a.last() - b.last())
    }
}

/// Dot product of two coordinate sequences.
pub open spec fn dot_spec(a: Seq<i64>, b: Seq<i64>) -> int
    recommends
        a.len() == b.len(),
    decreases a.len(),
{
    if a.len() == 0 {
        0
    } else {
        dot_spec(a.drop_last(), b.drop_last()) + a.last() * b.last()
    }
}

/// Squared Euclidean norm of a coordinate sequence.
pub open spec fn norm_sq_spec(a: Seq<i64>) -> int {
    dot_spec(a, a)
}

pub open spec fn abs_int(x: int) -> int {
    if x < 0 {
        -x
    } else {
        x
    }
}

/// The distance policy of the nearest-neighbor index, chosen once at store
/// construction. Every metric is an exact integer function of the fixed-point
/// coordinates: squared Euclidean orders candidates exactly as Euclidean
/// does, and cosine distance counts thousandths away from perfect similarity.
#[derive(Clone, Copy, Debug, PartialEq, Eq, Structural)]
pub enum Metric {
    SquaredEuclidean,
    Manhattan,
    Cosine,
}

/// Cosine distance in thousandths, saturated to `0 ..= 2000`: zero for
/// perfectly aligned embeddings, 2000 for opposite ones. An embedding of
/// zero norm has no direction and ranks farthest.
pub open spec fn cosine_dist_spec(a: Seq<i64>, b: Seq<i64>) -> int {
    if norm_sq_spec(a) == 0 || norm_sq_spec(b) == 0 {
        2000
    } else {
        let m = crate::simcheck::similarity_milli_spec(a, b);
        if m >= 1000 {
            0
        } else if m <= -1000 {
            2000
        } else {
            1000 - m
        }
    }
}

/// What a metric reports for a pair of equal-length coordinate sequences.
pub open spec fn dist_spec(m: Metric, a: Seq<i64>, b: Seq<i64>) -> int {
    match m {
        Metric::SquaredEuclidean => sum_sq_diff(a, b),
        Metric::Manhattan => sum_abs_diff(a, b),
        Metric::Cosine => cosine_dist_spec(a, b),
    }
}

proof fn lemma_sum_sq_diff_bounds(a: Seq<i64>, b: Seq<i64>)
    requires
        a.len() == b.len(),
        coords_ok(a),
        coords_ok(b),
    ensures
        0 <= sum_sq_diff(a, b) <= a.len() * 4 * (COORD_LIMIT as int) * (COORD_LIMIT as int),
    decreases a.len(),
{
    if a.len() > 0 {
        lemma_sum_sq_diff_bounds(a.drop_last(), b.drop_last());
        let d = a.last() - b.last();
        assert(-2 * (COORD_LIMIT as int) <= d <= 2 * (COORD_LIMIT as int));
        assert(0 <= d * d <= 4 * (COORD_LIMIT as int) * (COORD_LIMIT as int))
            by (nonlinear_arith)
            requires
                -2 * (COORD_LIMIT as int) <= d <= 2 * (COORD_LIMIT as int),
        ;
        assert((a.len() - 1) * 4 * (COORD_LIMIT as int) * (COORD_LIMIT as int) + 4 * (
        COORD_LIMIT as int) * (COORD_LIMIT as int) == a.len() * 4 * (COORD_LIMIT as int) * (
        COORD_LIMIT as int)) by (nonlinear_arith);
    }
}

proof fn lemma_sum_abs_diff_bounds(a: Seq<i64>, b: Seq<i64>)
    requires
        a.len() == b.len(),
        coords_ok(a),
        coords_ok(b),
    ensures
        0 <= sum_abs_diff(a, b) <= a.len() * 2 * (COORD_LIMIT as int),
    decreases a.len(),
{
    if a.len() > 0 {
        lemma_sum_abs_diff_bounds(a.drop_last(), b.drop_last());
        assert((a.len() - 1) * 2 * (COORD_LIMIT as int) + 2 * (COORD_LIMIT as int) == a.len() * 2
            * (COORD_LIMIT as int)) by (nonlinear_arith);
    }
}

/// Magnitude bound of a partial dot product: each term is at most the square
/// of the coordinate limit.
pub proof fn lemma_dot_bounds(a: Seq<i64>, b: Seq<i64>)
    requires
        a.len() == b.len(),
        coords_ok(a),
        coords_ok(b),
    ensures
        abs_int(dot_spec(a, b)) <= a.len() * (COORD_LIMIT as int) * (COORD_LIMIT as int),
    decreases a.len(),
{
    if a.len() > 0 {
        lemma_dot_bounds(a.drop_last(), b.drop_last());
        let x = a.last();
        let y = b.last();
        assert(abs_int(x * y) <= (COORD_LIMIT as int) * (COORD_LIMIT as int))
            by (nonlinear_arith)
            requires
                -COORD_LIMIT <= x <= COORD_LIMIT,
                -COORD_LIMIT <= y <= COORD_LIMIT,
        ;
        assert((a.len() - 1) * (COORD_LIMIT as int) * (COORD_LIMIT as int) + (COORD_LIMIT as int)
            * (COORD_LIMIT as int) == a.len() * (COORD_LIMIT as int) * (COORD_LIMIT as int))
            by (nonlinear_arith);
    }
}

/// A squared norm is a dot product of a sequence with itself, hence
/// nonnegative.
pub proof fn lemma_norm_sq_nonneg(a: Seq<i64>)
    requires
        coords_ok(a),
    ensures
        0 <= norm_sq_spec(a) <= a.len() * (COORD_LIMIT as int) * (COORD_LIMIT as int),
    decreases a.len(),
{
    if a.len() > 0 {
        assert(norm_sq_spec(a.drop_last()) == dot_spec(a.drop_last(), a.drop_last()));
        lemma_norm_sq_nonneg(a.drop_last());
        let x = a.last();
        assert(0 <= x * x <= (COORD_LIMIT as int) * (COORD_LIMIT as int))
            by (nonlinear_arith)
            requires
                -COORD_LIMIT <= x <= COORD_LIMIT,
        ;
        assert((a.len() - 1) * (COORD_LIMIT as int) * (COORD_LIMIT as int) + (COORD_LIMIT as int)
            * (COORD_LIMIT as int) == a.len() * (COORD_LIMIT as int) * (COORD_LIMIT as int))
            by (nonlinear_arith);
    }
}

/// The distance between two embeddings under the given metric: an exact
/// integer, reported as `u64`.
pub fn distance(m: Metric, a: &Embedding, b: &Embedding) -> (r: u64)
    requires
        a.wf(),
        b.wf(),
        a@.len() == b@.len(),
    ensures
        r as int == dist_spec(m, a@, b@),
{
    match m {
        Metric::SquaredEuclidean => sq_euclidean(a, b),
        Metric::Manhattan => manhattan(a, b),
        Metric::Cosine => cosine_distance(a, b),
    }
}

fn cosine_distance(a: &Embedding, b: &Embedding) -> (r: u64)
    requires
        a.wf(),
        b.wf(),
        a@.len() == b@.len(),
    ensures
        r as int == cosine_dist_spec(a@, b@),
{
    match crate::simcheck::similarity_check(a, b) {
        Ok((_, milli)) => {
            proof {
                assert(norm_sq_spec(a@) > 0 && norm_sq_spec(b@) > 0);
                assert(milli as int == crate::simcheck::similarity_milli_spec(a@, b@));
            }
            if milli >= 1000 {
                0
            } else if milli <= -1000 {
                2000
            } else {
                (1000 - milli) as u64
            }
        },
        Err(e) => {
            proof {
                assert(e == crate::ProveError::ZeroNorm);
                assert(norm_sq_spec(a@) == 0 || norm_sq_spec(b@) == 0);
            }
            2000
        },
    }
}

fn sq_euclidean(a: &Embedding, b: &Embedding) -> (r: u64)
    requires
        a.wf(),
        b.wf(),
        a@.len() == b@.len(),
    ensures
        r as int == sum_sq_diff(a@, b@),
{
    let n = a.len();
    let mut acc: u64 = 0;
    let mut i: usize = 0;
    proof {
        assert(a@.take(0) =~= Seq::<i64>::empty());
        assert(b@.take(0) =~= Seq::<i64>::empty());
    }
    while i < n
        invariant
            i <= n,
            n == a@.len() == b@.len(),
            a.wf(),
            b.wf(),
            acc as int == sum_sq_diff(a@.take(i as int), b@.take(i as int)),
        decreases n - i,
    {
        proof {
            lemma_sum_sq_diff_bounds(a@.take(i as int), b@.take(i as int));
            assert(i * 4 * (COORD_LIMIT as int) * (COORD_LIMIT as int) + 4 * (COORD_LIMIT as int)
                * (COORD_LIMIT as int) <= (MAX_DIMS as int) * 4 * (COORD_LIMIT as int) * (
            COORD_LIMIT as int)) by (nonlinear_arith)
                requires
                    0 <= i < MAX_DIMS,
            ;
        }
        let d: i64 = a.coord(i) - b.coord(i);
        proof {
            assert(0 <= (d as int) * (d as int) <= 4 * (COORD_LIMIT as int) * (COORD_LIMIT as int))
                by (nonlinear_arith)
                requires
                    -2 * (COORD_LIMIT as int) <= d as int <= 2 * (COORD_LIMIT as int),
            ;
            assert(a@.take(i + 1).drop_last() =~= a@.take(i as int));
            assert(b@.take(i + 1).drop_last() =~= b@.take(i as int));
        }
        let sq: i64 = d * d;
        acc = acc + (sq as u64);
        i += 1;
    }
    proof {
        assert(a@.take(n as int) =~= a@);
        assert(b@.take(n as int) =~= b@);
    }
    acc
}

fn manhattan(a: &Embedding, b: &Embedding) -> (r: u64)
    requires
        a.wf(),
        b.wf(),
        a@.len() == b@.len(),
    ensures
        r as int == sum_abs_diff(a@, b@),
{
    let n = a.len();
    let mut acc: u64 = 0;
    let mut i: usize = 0;
    proof {
        assert(a@.take(0) =~= Seq::<i64>::empty());
        assert(b@.take(0) =~= Seq::<i64>::empty());
    }
    while i < n
        invariant
            i <= n,
            n == a@.len() == b@.len(),
            a.wf(),
            b.wf(),
            acc as int == sum_abs_diff(a@.take(i as int), b@.take(i as int)),
        decreases n - i,
    {
        proof {
            lemma_sum_abs_diff_bounds(a@.take(i as int), b@.take(i as int));
            assert(i * 2 * (COORD_LIMIT as int) + 2 * (COORD_LIMIT as int) <= (MAX_DIMS as int) * 2
                * (COORD_LIMIT as int)) by (nonlinear_arith)
                requires
                    0 <= i < MAX_DIMS,
            ;
            assert(a@.take(i + 1).drop_last() =~= a@.take(i as int));
            assert(b@.take(i + 1).drop_last() =~= b@.take(i as int));
        }
        let ai = a.coord(i);
        let bi = b.coord(i);
        let d: i64 = if ai >= bi {
            ai - bi
        } else {
            bi - ai
        };
        acc = acc + (d as u64);
        i += 1;
    }
    proof {
        assert(a@.take(n as int) =~= a@);
        assert(b@.take(n as int) =~= b@);
    }
    acc
}

/// The exact dot product of two embeddings.
pub fn dot(a: &Embedding, b: &Embedding) -> (r: i64)
    requires
        a.wf(),
        b.wf(),
        a@.len() == b@.len(),
    ensures
        r as int == dot_spec(a@, b@),
{
    let n = a.len();
    let mut acc: i64 = 0;
    let mut i: usize = 0;
    proof {
        assert(a@.take(0) =~= Seq::<i64>::empty());
        assert(b@.take(0) =~= Seq::<i64>::empty());
    }
    while i < n
        invariant
            i <= n,
            n == a@.len() == b@.len(),
            a.wf(),
            b.wf(),
            acc as int == dot_spec(a@.take(i as int), b@.take(i as int)),
        decreases n - i,
    {
        proof {
            lemma_dot_bounds(a@.take(i as int), b@.take(i as int));
            assert(i * (COORD_LIMIT as int) * (COORD_LIMIT as int) + (COORD_LIMIT as int) * (
            COORD_LIMIT as int) <= (MAX_DIMS as int) * (COORD_LIMIT as int) * (COORD_LIMIT as int))
                by (nonlinear_arith)
                requires
                    0 <= i < MAX_DIMS,
            ;
        }
        let x = a.coord(i);
        let y = b.coord(i);
        proof {
            assert(abs_int((x as int) * (y as int)) <= (COORD_LIMIT as int) * (COORD_LIMIT as int))
                by (nonlinear_arith)
                requires
                    -COORD_LIMIT <= x as int <= COORD_LIMIT,
                    -COORD_LIMIT <= y as int <= COORD_LIMIT,
            ;
            assert(a@.take(i + 1).drop_last() =~= a@.take(i as int));
            assert(b@.take(i + 1).drop_last() =~= b@.take(i as int));
        }
        let p: i64 = x * y;
        acc = acc + p;
        i += 1;
    }
    proof {
        assert(a@.take(n as int) =~= a@);
        assert(b@.take(n as int) =~= b@);
    }
    acc
}

/// The exact squared Euclidean norm of an embedding.
pub fn norm_sq(a: &Embedding) -> (r: u64)
    requires
        a.wf(),
    ensures
        r as int == norm_sq_spec(a@),
{
    proof {
        lemma_norm_sq_nonneg(a@);
        lemma_dot_bounds(a@, a@);
    }
    let d = dot(a, a);
    d as u64
}

} // verus!
