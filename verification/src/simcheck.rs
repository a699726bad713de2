//! The similarity program: exact cosine-similarity threshold check over
//! fixed-point embeddings, the computation whose public outcome the proof
//! protocol commits.
use vstd::prelude::*;
use vstd::arithmetic::div_mod::{lemma_div_multiples_vanish, lemma_div_of0};
use crate::embedding::{coords_ok, Embedding, COORD_LIMIT, MAX_DIMS};
use crate::metric::{abs_int, dot_spec, lemma_dot_bounds, lemma_norm_sq_nonneg, norm_sq_spec};
use crate::metric::{dot, norm_sq};
use crate::ProveError;

verus! {

/// The similarity threshold, in thousandths: 0.8.
pub const THRESHOLD_MILLI: i64 = 800;

/// Largest magnitude a dot product or squared norm of well-formed embeddings
/// can reach: `MAX_DIMS * COORD_LIMIT * COORD_LIMIT`.
pub const PAIR_SUM_LIMIT: i64 = 4_096_000_000_000_000;

proof fn lemma_pair_sum_limit()
    ensures
        PAIR_SUM_LIMIT as int == (MAX_DIMS as int) * (COORD_LIMIT as int) * (COORD_LIMIT as int),
{
    assert(PAIR_SUM_LIMIT as int == (MAX_DIMS as int) * (COORD_LIMIT as int) * (COORD_LIMIT as int))
        by (nonlinear_arith);
}

/// `r` is the integer square root of `x`.
pub open spec fn is_sqrt_floor(x: int, r: int) -> bool {
    0 <= r && r * r <= x && x < (r + 1) * (r + 1)
}

/// The integer square root: the unique `r >= 0` with
/// `r * r <= x < (r + 1) * (r + 1)`.
pub open spec fn sqrt_floor(x: int) -> int
    recommends
        x >= 0,
{
    choose|r: int| is_sqrt_floor(x, r)
}

/// There is at most one integer square root, so any witness equals
/// `sqrt_floor`.
pub proof fn lemma_sqrt_floor_is(x: int, r: int)
    requires
        is_sqrt_floor(x, r),
    ensures
        sqrt_floor(x) == r,
{
    assert(exists|q: int| is_sqrt_floor(x, q)) by {
        assert(is_sqrt_floor(x, r));
    }
    let s = sqrt_floor(x);
    assert(is_sqrt_floor(x, s));
    if s < r {
        assert((s + 1) * (s + 1) <= r * r) by (nonlinear_arith)
            requires
                0 <= s,
                s < r,
        ;
    }
    if r < s {
        assert((r + 1) * (r + 1) <= s * s) by (nonlinear_arith)
            requires
                0 <= r,
                r < s,
        ;
    }
}

/// The defining property of `sqrt_floor` holds for every nonnegative
/// argument, because a witness always exists.
pub proof fn lemma_sqrt_floor_property(x: int)
    requires
        x >= 0,
    ensures
        is_sqrt_floor(x, sqrt_floor(x)),
{
    lemma_sqrt_exists(x);
    let r = choose|r: int| is_sqrt_floor(x, r);
    assert(is_sqrt_floor(x, r));
}

/// Every nonnegative integer has an integer square root.
proof fn lemma_sqrt_exists(x: int)
    requires
        x >= 0,
    ensures
        exists|r: int| is_sqrt_floor(x, r),
    decreases x,
{
    if x == 0 {
        assert(is_sqrt_floor(0, 0)) by (nonlinear_arith);
    } else {
        lemma_sqrt_exists(x - 1);
        let y = x - 1;
        let r = choose|r: int| is_sqrt_floor(y, r);
        assert(is_sqrt_floor(x - 1, r));
        if x < (r + 1) * (r + 1) {
            assert(is_sqrt_floor(x, r));
        } else {
            // x == (r + 1) * (r + 1): step to the next root.
            assert(is_sqrt_floor(x, r + 1)) by (nonlinear_arith)
                requires
                    x - 1 < (r + 1) * (r + 1),
                    x >= (r + 1) * (r + 1),
                    r >= 0,
            ;
        }
    }
}

/// Computes the integer square root by binary search.
pub fn isqrt(x: u128) -> (r: u64)
    ensures
        is_sqrt_floor(x as int, r as int),
        r as int == sqrt_floor(x as int),
{
    let mut lo: u64 = 0;
    let mut hi: u64 = 0xffff_ffff_ffff_ffff;
    proof {
        assert(((hi as int) + 1) * ((hi as int) + 1) > x as int) by (nonlinear_arith)
            requires
                hi as int == 0xffff_ffff_ffff_ffffu64 as int,
                x as int <= 0xffff_ffff_ffff_ffff_ffff_ffff_ffff_ffffu128 as int,
        ;
    }
    while lo < hi
        invariant
            lo <= hi,
            (lo as int) * (lo as int) <= x as int,
            (x as int) < ((hi as int) + 1) * ((hi as int) + 1),
        decreases hi - lo,
    {
        let mid: u64 = lo + (hi - lo) / 2 + 1;
        proof {
            assert((mid as int) * (mid as int) <= 0xffff_ffff_ffff_ffff_ffff_ffff_ffff_ffffu128)
                by (nonlinear_arith)
                requires
                    0 <= mid as int <= 0xffff_ffff_ffff_ffffu64 as int,
            ;
        }
        let sq: u128 = (mid as u128) * (mid as u128);
        if sq <= x {
            lo = mid;
        } else {
            hi = mid - 1;
        }
    }
    proof {
        lemma_sqrt_floor_is(x as int, lo as int);
    }
    lo
}

/// Whether the cosine similarity of `a` and `b` strictly exceeds the
/// threshold: `dot / (|a| * |b|) > THRESHOLD_MILLI / 1000`, stated without
/// square roots by cross-multiplying the squares.
pub open spec fn matched_spec(a: Seq<i64>, b: Seq<i64>) -> bool {
    let d = dot_spec(a, b);
    let t = THRESHOLD_MILLI as int;
    d > 0 && 1_000_000 * d * d > t * t * norm_sq_spec(a) * norm_sq_spec(b)
}

/// The cosine similarity of `a` and `b` in thousandths, rounded toward zero:
/// `dot * 1000 / sqrt(|a|^2 * |b|^2)`.
pub open spec fn similarity_milli_spec(a: Seq<i64>, b: Seq<i64>) -> int
    recommends
        norm_sq_spec(a) > 0,
        norm_sq_spec(b) > 0,
{
    let d = dot_spec(a, b);
    let s = sqrt_floor(norm_sq_spec(a) * norm_sq_spec(b));
    if d >= 0 {
        (d * 1000) / s
    } else {
        -((-d * 1000) / s)
    }
}

/// The fixed similarity program: decides whether two embeddings are similar
/// above the threshold and reports the similarity in thousandths. This is
/// the computation a proof receipt attests to.
///
/// Succeeds exactly on equal-length embeddings whose norms are both nonzero;
/// a zero norm is rejected rather than passed through, as cosine similarity
/// is undefined there.
pub fn similarity_check(a: &Embedding, b: &Embedding) -> (r: Result<(bool, i64), ProveError>)
    requires
        a.wf(),
        b.wf(),
    ensures
        r is Ok <==> (a@.len() == b@.len() && norm_sq_spec(a@) > 0 && norm_sq_spec(b@) > 0),
        r matches Ok(p) ==> p.0 == matched_spec(a@, b@) && p.1 as int == similarity_milli_spec(
            a@,
            b@,
        ) && p.1 > i64::MIN,
        r == Err::<(bool, i64), ProveError>(ProveError::DimensionMismatch) <==> a@.len()
            != b@.len(),
        r == Err::<(bool, i64), ProveError>(ProveError::ZeroNorm) <==> (a@.len() == b@.len() && (
        norm_sq_spec(a@) == 0 || norm_sq_spec(b@) == 0)),
{
    if a.len() != b.len() {
        return Err(ProveError::DimensionMismatch);
    }
    let ghost lim: int = PAIR_SUM_LIMIT as int;
    proof {
        lemma_pair_sum_limit();
        lemma_norm_sq_nonneg(a@);
        lemma_norm_sq_nonneg(b@);
        lemma_dot_bounds(a@, b@);
        assert(a@.len() * (COORD_LIMIT as int) * (COORD_LIMIT as int) <= lim) by (nonlinear_arith)
            requires
                0 <= a@.len() <= MAX_DIMS as int,
                lim == (MAX_DIMS as int) * (COORD_LIMIT as int) * (COORD_LIMIT as int),
        ;
    }
    let na: u64 = norm_sq(a);
    let nb: u64 = norm_sq(b);
    if na == 0 || nb == 0 {
        return Err(ProveError::ZeroNorm);
    }
    let d: i64 = dot(a, b);
    proof {
        assert(abs_int(d as int) <= lim && 1 <= na as int <= lim && 1 <= nb as int <= lim);
    }

    // The threshold decision, exact: 10^6 * dot^2 > T^2 * |a|^2 * |b|^2.
    let dw: i128 = d as i128;
    proof {
        assert(1_000_000 * (dw as int) * (dw as int) <= 1_000_000 * lim * lim && 1_000_000 * lim
            * lim < 0x7fff_ffff_ffff_ffff_ffff_ffff_ffff_ffffi128 && 1_000_000 * (dw as int) * (
        dw as int) >= 0) by (nonlinear_arith)
            requires
                dw == d as int,
                abs_int(d as int) <= lim,
                lim == 4_096_000_000_000_000int,
        ;
        assert(0 <= 640_000 * (na as int) * (nb as int) <= 640_000 * lim * lim && 640_000 * lim
            * lim < 0x7fff_ffff_ffff_ffff_ffff_ffff_ffff_ffffi128) by (nonlinear_arith)
            requires
                0 <= na as int <= lim,
                0 <= nb as int <= lim,
                lim == 4_096_000_000_000_000int,
        ;
    }
    let lhs: i128 = 1_000_000 * dw * dw;
    let rhs: i128 = (THRESHOLD_MILLI as i128) * (THRESHOLD_MILLI as i128) * (na as i128) * (
    nb as i128);
    let matched: bool = d > 0 && lhs > rhs;
    proof {
        assert(lhs as int == 1_000_000 * (d as int) * (d as int) && rhs as int == 640_000 * (
        na as int) * (nb as int)) by (nonlinear_arith)
            requires
                dw == d as int,
                lhs as int == 1_000_000 * (dw as int) * (dw as int),
                rhs as int == (THRESHOLD_MILLI as int) * (THRESHOLD_MILLI as int) * (na as int) * (
                nb as int),
        ;
        assert(matched == matched_spec(a@, b@));
    }

    // The reported similarity, in thousandths.
    proof {
        assert(0 <= (na as int) * (nb as int) <= lim * lim && lim * lim
            <= 0xffff_ffff_ffff_ffff_ffff_ffff_ffff_ffffu128) by (nonlinear_arith)
            requires
                0 <= na as int <= lim,
                0 <= nb as int <= lim,
                lim == 4_096_000_000_000_000int,
        ;
    }
    let prod: u128 = (na as u128) * (nb as u128);
    let s: u64 = isqrt(prod);
    proof {
        if s == 0 {
            assert(prod as int >= 1) by (nonlinear_arith)
                requires
                    na as int >= 1,
                    nb as int >= 1,
                    prod as int == (na as int) * (nb as int),
            ;
            assert(is_sqrt_floor(prod as int, 0) ==> prod < (0 + 1) * (0 + 1));
        }
        assert(s >= 1);
    }
    let mag: u64 = if d >= 0 {
        d as u64
    } else {
        (-d) as u64
    };
    let scaled: u64 = mag * 1000;
    proof {
        assert((mag as int) * 1000 <= lim * 1000 && lim * 1000
            <= 0xffff_ffff_ffff_ffff_ffff_ffffu128) by (nonlinear_arith)
            requires
                0 <= mag as int <= lim,
                lim == 4_096_000_000_000_000int,
        ;
    }
    let q: u64 = scaled / s;
    proof {
        assert(q as int <= scaled as int) by (nonlinear_arith)
            requires
                s >= 1,
                q as int == (scaled as int) / (s as int),
                scaled as int >= 0,
        ;
    }
    let milli: i64 = if d >= 0 {
        q as i64
    } else {
        -(q as i64)
    };
    proof {
        assert(milli as int == similarity_milli_spec(a@, b@));
    }
    Ok((matched, milli))
}

/// Two identical embeddings with nonzero norm are similar above the
/// threshold, with similarity exactly 1.0 (1000 thousandths).
pub proof fn lemma_identical_similarity(a: Seq<i64>)
    requires
        coords_ok(a),
        norm_sq_spec(a) != 0,
    ensures
        matched_spec(a, a),
        similarity_milli_spec(a, a) == 1000,
{
    lemma_norm_sq_nonneg(a);
    let n = norm_sq_spec(a);
    assert(n > 0);
    assert(dot_spec(a, a) == n);
    assert(1_000_000 * n * n > (THRESHOLD_MILLI as int) * (THRESHOLD_MILLI as int) * n * n)
        by (nonlinear_arith)
        requires
            n > 0,
    ;
    assert(is_sqrt_floor(n * n, n)) by (nonlinear_arith)
        requires
            n > 0,
    ;
    lemma_sqrt_floor_is(n * n, n);
    lemma_div_multiples_vanish(1000, n);
    assert((n * 1000) == (1000 * n)) by (nonlinear_arith);
    assert((n * 1000) / n == 1000);
}

/// Two orthogonal embeddings (zero dot product) with nonzero norms are not
/// similar above the threshold, with similarity exactly 0.
pub proof fn lemma_orthogonal_similarity(a: Seq<i64>, b: Seq<i64>)
    requires
        coords_ok(a),
        coords_ok(b),
        a.len() == b.len(),
        dot_spec(a, b) == 0,
        norm_sq_spec(a) != 0,
        norm_sq_spec(b) != 0,
    ensures
        !matched_spec(a, b),
        similarity_milli_spec(a, b) == 0,
{
    lemma_norm_sq_nonneg(a);
    lemma_norm_sq_nonneg(b);
    let p = norm_sq_spec(a) * norm_sq_spec(b);
    assert(p > 0) by (nonlinear_arith)
        requires
            norm_sq_spec(a) > 0,
            norm_sq_spec(b) > 0,
            p == norm_sq_spec(a) * norm_sq_spec(b),
    ;
    lemma_sqrt_floor_property(p);
    let s = sqrt_floor(p);
    if s == 0 {
        assert(p < (0 + 1) * (0 + 1));
    }
    assert(s >= 1);
    lemma_div_of0(s);
    assert((0int * 1000int) / s == 0);
}

} // verus!
