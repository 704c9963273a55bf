//! The in-memory fingerprint store and the sliding-window matcher.
//!
//! A fingerprint is a matrix of fixed-point feature coefficients, one row per
//! analysis frame, `N_FILTERS` columns. A query window slides along each
//! stored fingerprint in steps of half its own row count; at each offset the
//! cosine similarity of the flattened query against the equally shaped slice
//! decides the match. Scores are compared exactly — as rationals, by
//! cross-multiplied squares — and the reported score is the cosine in
//! thousandths, rounded toward zero.

use vstd::prelude::*;

verus! {

use vstd::arithmetic::div_mod::lemma_div_multiples_vanish;
use vstd::arithmetic::div_mod::lemma_div_nonincreasing;
use vstd::arithmetic::div_mod::lemma_div_pos_is_pos;

use crate::DetectorError;
use crate::N_FILTERS;
use crate::mat_ok;
use crate::mat_view;
use crate::row_ok;

/// The largest row count a query window may have: keeps every intermediate
/// product of the exact score comparison inside `i128`.
pub const MAX_QUERY_ROWS: usize = 200;

/// Dot product of two coefficient rows (zero past the shorter one), as a
/// mathematical integer.
pub open spec fn dot(u: Seq<i16>, v: Seq<i16>) -> int
    decreases u.len(),
{
    if u.len() == 0 || v.len() == 0 {
        0
    } else {
        dot(u.drop_last(), v.drop_last()) + u.last() * v.last()
    }
}

/// Dot product of two matrices of equal shape, row by row: the dot product
/// of the two flattened matrices.
pub open spec fn mat_dot(a: Seq<Seq<i16>>, b: Seq<Seq<i16>>) -> int
    decreases a.len(),
{
    if a.len() == 0 || b.len() == 0 {
        0
    } else {
        mat_dot(a.drop_last(), b.drop_last()) + dot(a.last(), b.last())
    }
}

/// The squared Euclidean norm of a flattened matrix.
pub open spec fn mat_energy(a: Seq<Seq<i16>>) -> int {
    mat_dot(a, a)
}

/// `r` is the integer square root of `x`, rounded down.
pub open spec fn is_sqrt(x: int, r: int) -> bool {
    0 <= r && r * r <= x && x < (r + 1) * (r + 1)
}

/// The integer square root of a non-negative `x`, rounded down.
pub open spec fn sqrt_floor(x: int) -> int {
    choose|r: int| is_sqrt(x, r)
}

/// A similarity score in thousandths: `1000 * d` divided by the integer
/// square root, rounded down, of `ee` — where `d` is the dot product of the
/// two flattened operands and `ee` the product of their squared norms. For
/// operands of realistic energy this is the cosine in thousandths; a
/// degenerate zero-norm operand yields 0 rather than a division by zero,
/// and no score exceeds one thousand in magnitude.
pub open spec fn milli_score(d: int, ee: int) -> int {
    if ee > 0 {
        if d >= 0 {
            1000 * d / sqrt_floor(ee)
        } else {
            -(1000 * (-d) / sqrt_floor(ee))
        }
    } else {
        0
    }
}

// ---------------------------------------------------------------------------
// Arithmetic groundwork
// ---------------------------------------------------------------------------

/// A bound on one coefficient product: `|a * b| <= 2^30` for `i16` factors.
proof fn lemma_i16_product_bound(a: int, b: int)
    by (nonlinear_arith)
    requires
        -0x8000 <= a <= 0x7fff,
        -0x8000 <= b <= 0x7fff,
    ensures
        -0x4000_0000 <= a * b <= 0x4000_0000,
{
}

/// The dot product of rows of length `n` lies within `n * 2^30`.
pub proof fn lemma_dot_bound(u: Seq<i16>, v: Seq<i16>)
    requires
        u.len() == v.len(),
    ensures
        -(u.len() * 0x4000_0000) <= dot(u, v) <= u.len() * 0x4000_0000,
    decreases u.len(),
{
    if u.len() > 0 {
        lemma_dot_bound(u.drop_last(), v.drop_last());
        lemma_i16_product_bound(u.last() as int, v.last() as int);
    }
}

/// A matrix dot product over rows of width `N_FILTERS` lies within
/// `rows * N_FILTERS * 2^30`.
pub proof fn lemma_mat_dot_bound(a: Seq<Seq<i16>>, b: Seq<Seq<i16>>)
    requires
        a.len() == b.len(),
        mat_ok(a),
        mat_ok(b),
    ensures
        -(a.len() * 20 * 0x4000_0000) <= mat_dot(a, b) <= a.len() * 20 * 0x4000_0000,
    decreases a.len(),
{
    if a.len() > 0 {
        assert(mat_ok(a.drop_last())) by {
            assert(forall|i: int|
                0 <= i < a.len() - 1 ==> #[trigger] a.drop_last()[i] == a[i]);
        }
        assert(mat_ok(b.drop_last())) by {
            assert(forall|i: int|
                0 <= i < b.len() - 1 ==> #[trigger] b.drop_last()[i] == b[i]);
        }
        lemma_mat_dot_bound(a.drop_last(), b.drop_last());
        assert(row_ok(a.last()) && row_ok(b.last()));
        lemma_dot_bound(a.last(), b.last());
    }
}

/// Squared norms are non-negative.
pub proof fn lemma_dot_self_nonneg(u: Seq<i16>)
    ensures
        dot(u, u) >= 0,
    decreases u.len(),
{
    if u.len() > 0 {
        lemma_dot_self_nonneg(u.drop_last());
        assert(u.last() * u.last() >= 0) by (nonlinear_arith);
    }
}

/// Squared norms of matrices are non-negative.
pub proof fn lemma_mat_energy_nonneg(a: Seq<Seq<i16>>)
    ensures
        mat_energy(a) >= 0,
    decreases a.len(),
{
    if a.len() > 0 {
        assert(mat_dot(a, a) == mat_dot(a.drop_last(), a.drop_last()) + dot(
            a.last(),
            a.last(),
        ));
        lemma_mat_energy_nonneg(a.drop_last());
        lemma_dot_self_nonneg(a.last());
    }
}

/// A row of zero norm is the zero row: its dot product with anything of the
/// same length vanishes.
proof fn lemma_dot_zero_left(u: Seq<i16>, v: Seq<i16>)
    requires
        u.len() == v.len(),
        dot(u, u) == 0,
    ensures
        dot(u, v) == 0,
    decreases u.len(),
{
    if u.len() > 0 {
        lemma_dot_self_nonneg(u.drop_last());
        assert(u.last() * u.last() >= 0) by (nonlinear_arith);
        assert(u.last() * u.last() == 0);
        assert(u.last() == 0) by (nonlinear_arith)
            requires
                u.last() * u.last() == 0,
        ;
        lemma_dot_zero_left(u.drop_last(), v.drop_last());
        assert(u.last() * v.last() == 0) by (nonlinear_arith)
            requires
                u.last() == 0,
        ;
    }
}

/// A matrix of zero energy has a vanishing dot product with any matrix of
/// the same shape.
pub proof fn lemma_mat_energy_zero(a: Seq<Seq<i16>>, b: Seq<Seq<i16>>)
    requires
        a.len() == b.len(),
        mat_ok(a),
        mat_ok(b),
        mat_energy(a) == 0,
    ensures
        mat_dot(a, b) == 0,
    decreases a.len(),
{
    if a.len() > 0 {
        lemma_mat_energy_nonneg(a.drop_last());
        lemma_dot_self_nonneg(a.last());
        assert(mat_dot(a, a) == mat_dot(a.drop_last(), a.drop_last()) + dot(
            a.last(),
            a.last(),
        ));
        assert(mat_ok(a.drop_last()) && mat_ok(b.drop_last())) by {
            assert(forall|i: int|
                0 <= i < a.len() - 1 ==> #[trigger] a.drop_last()[i] == a[i]);
            assert(forall|i: int|
                0 <= i < b.len() - 1 ==> #[trigger] b.drop_last()[i] == b[i]);
        }
        lemma_mat_energy_zero(a.drop_last(), b.drop_last());
        assert(row_ok(a.last()) && row_ok(b.last()));
        lemma_dot_zero_left(a.last(), b.last());
    }
}

/// The inductive step of the Cauchy–Schwarz inequality for sums:
/// from `S² <= A·B` and `s² <= a·b` over non-negative `A, B, a, b`,
/// conclude `(S+s)² <= (A+a)(B+b)`.
proof fn lemma_cs_step(cs: int, ca: int, cb: int, s: int, a: int, b: int)
    requires
        cs * cs <= ca * cb,
        s * s <= a * b,
        ca >= 0,
        cb >= 0,
        a >= 0,
        b >= 0,
    ensures
        (cs + s) * (cs + s) <= (ca + a) * (cb + b),
{
    assert(4 * (cs * cs) * (s * s) <= 4 * (ca * cb) * (a * b)) by (nonlinear_arith)
        requires
            cs * cs <= ca * cb,
            s * s <= a * b,
            ca * cb >= 0,
    ;
    assert(ca * cb >= 0) by (nonlinear_arith)
        requires
            ca >= 0,
            cb >= 0,
    ;
    assert(4 * (ca * cb) * (a * b) <= (ca * b + a * cb) * (ca * b + a * cb)) by (nonlinear_arith)
        requires
            ca >= 0,
            cb >= 0,
            a >= 0,
            b >= 0,
    ;
    assert(ca * b + a * cb >= 0) by (nonlinear_arith)
        requires
            ca >= 0,
            cb >= 0,
            a >= 0,
            b >= 0,
    ;
    assert(2 * cs * s <= ca * b + a * cb) by (nonlinear_arith)
        requires
            4 * (cs * cs) * (s * s) <= (ca * b + a * cb) * (ca * b + a * cb),
            ca * b + a * cb >= 0,
    ;
    assert((cs + s) * (cs + s) <= (ca + a) * (cb + b)) by (nonlinear_arith)
        requires
            cs * cs <= ca * cb,
            s * s <= a * b,
            2 * cs * s <= ca * b + a * cb,
    ;
}

/// Cauchy–Schwarz for rows: `dot(u,v)² <= dot(u,u)·dot(v,v)`.
pub proof fn lemma_dot_cauchy_schwarz(u: Seq<i16>, v: Seq<i16>)
    requires
        u.len() == v.len(),
    ensures
        dot(u, v) * dot(u, v) <= dot(u, u) * dot(v, v),
    decreases u.len(),
{
    if u.len() == 0 {
    } else {
        lemma_dot_cauchy_schwarz(u.drop_last(), v.drop_last());
        lemma_dot_self_nonneg(u.drop_last());
        lemma_dot_self_nonneg(v.drop_last());
        let x = u.last() as int;
        let y = v.last() as int;
        assert((x * y) * (x * y) <= (x * x) * (y * y)) by (nonlinear_arith);
        assert(x * x >= 0 && y * y >= 0) by (nonlinear_arith);
        lemma_cs_step(
            dot(u.drop_last(), v.drop_last()),
            dot(u.drop_last(), u.drop_last()),
            dot(v.drop_last(), v.drop_last()),
            x * y,
            x * x,
            y * y,
        );
    }
}

/// Cauchy–Schwarz for matrices of equal shape:
/// `mat_dot(a,b)² <= mat_energy(a)·mat_energy(b)`.
pub proof fn lemma_mat_cauchy_schwarz(a: Seq<Seq<i16>>, b: Seq<Seq<i16>>)
    requires
        a.len() == b.len(),
        mat_ok(a),
        mat_ok(b),
    ensures
        mat_dot(a, b) * mat_dot(a, b) <= mat_energy(a) * mat_energy(b),
    decreases a.len(),
{
    if a.len() == 0 {
    } else {
        assert(mat_ok(a.drop_last()) && mat_ok(b.drop_last())) by {
            assert(forall|i: int|
                0 <= i < a.len() - 1 ==> #[trigger] a.drop_last()[i] == a[i]);
            assert(forall|i: int|
                0 <= i < b.len() - 1 ==> #[trigger] b.drop_last()[i] == b[i]);
        }
        lemma_mat_cauchy_schwarz(a.drop_last(), b.drop_last());
        lemma_mat_energy_nonneg(a.drop_last());
        lemma_mat_energy_nonneg(b.drop_last());
        assert(row_ok(a.last()) && row_ok(b.last()));
        lemma_dot_cauchy_schwarz(a.last(), b.last());
        lemma_dot_self_nonneg(a.last());
        lemma_dot_self_nonneg(b.last());
        lemma_cs_step(
            mat_dot(a.drop_last(), b.drop_last()),
            mat_energy(a.drop_last()),
            mat_energy(b.drop_last()),
            dot(a.last(), b.last()),
            dot(a.last(), a.last()),
            dot(b.last(), b.last()),
        );
        assert(mat_energy(a) == mat_energy(a.drop_last()) + dot(a.last(), a.last()));
        assert(mat_energy(b) == mat_energy(b.drop_last()) + dot(b.last(), b.last()));
    }
}

/// Integer square roots are unique.
proof fn lemma_sqrt_unique_raw(x: int, r1: int, r2: int)
    by (nonlinear_arith)
    requires
        0 <= r1,
        r1 * r1 <= x,
        x < (r1 + 1) * (r1 + 1),
        0 <= r2,
        r2 * r2 <= x,
        x < (r2 + 1) * (r2 + 1),
    ensures
        r1 == r2,
{
}

/// Any witness pins `sqrt_floor` down.
pub proof fn lemma_sqrt_is(x: int, r: int)
    requires
        is_sqrt(x, r),
    ensures
        sqrt_floor(x) == r,
{
    assert(is_sqrt(x, sqrt_floor(x))) by {
        assert(exists|w: int| is_sqrt(x, w));
    }
    lemma_sqrt_unique_raw(x, sqrt_floor(x), r);
}

// ---------------------------------------------------------------------------
// Executable arithmetic
// ---------------------------------------------------------------------------

/// The dot product of two equally long coefficient rows.
fn vec_dot(u: &Vec<i16>, v: &Vec<i16>) -> (d: i64)
    requires
        u@.len() == v@.len(),
        u@.len() <= 4000,
    ensures
        d == dot(u@, v@),
{
    let n = u.len();
    let mut acc: i64 = 0;
    let mut k: usize = 0;
    while k < n
        invariant
            u@.len() == v@.len(),
            u@.len() <= 4000,
            n == u@.len(),
            k <= n,
            acc == dot(u@.take(k as int), v@.take(k as int)),
        decreases n - k,
    {
        proof {
            lemma_dot_bound(u@.take(k as int), v@.take(k as int));
            lemma_i16_product_bound(u@[k as int] as int, v@[k as int] as int);
        }
        let p: i64 = (u[k] as i64) * (v[k] as i64);
        acc = acc + p;
        k = k + 1;
        proof {
            assert(u@.take(k as int).drop_last() =~= u@.take(k - 1));
            assert(v@.take(k as int).drop_last() =~= v@.take(k - 1));
            assert(u@.take(k as int).last() == u@[k - 1]);
        }
    }
    proof {
        assert(u@.take(n as int) =~= u@);
        assert(v@.take(n as int) =~= v@);
    }
    acc
}

/// The dot product of the query matrix against the equally shaped slice of
/// `hay` that starts at row `off`.
fn window_dot(q: &Vec<Vec<i16>>, hay: &Vec<Vec<i16>>, off: usize) -> (d: i64)
    requires
        mat_ok(mat_view(q@)),
        mat_ok(mat_view(hay@)),
        q@.len() <= MAX_QUERY_ROWS,
        off + q@.len() <= hay@.len(),
    ensures
        d == mat_dot(mat_view(q@), mat_view(hay@).subrange(off as int, off + q@.len())),
{
    let n = q.len();
    let hlen = hay.len();
    proof {
        assert(hay@.len() == hlen);
    }
    let mut acc: i64 = 0;
    let mut r: usize = 0;
    while r < n
        invariant
            mat_ok(mat_view(q@)),
            mat_ok(mat_view(hay@)),
            n == q@.len(),
            n <= MAX_QUERY_ROWS,
            off + n <= hay@.len(),
            hay@.len() <= usize::MAX,
            r <= n,
            acc == mat_dot(
                mat_view(q@).take(r as int),
                mat_view(hay@).subrange(off as int, off + r),
            ),
        decreases n - r,
    {
        proof {
            assert(mat_ok(mat_view(q@).take(r as int))) by {
                assert(forall|i: int|
                    0 <= i < r ==> #[trigger] mat_view(q@).take(r as int)[i] == mat_view(
                        q@,
                    )[i]);
            }
            assert(mat_ok(mat_view(hay@).subrange(off as int, off + r))) by {
                assert(forall|i: int|
                    0 <= i < r ==> #[trigger] mat_view(hay@).subrange(off as int, off + r)[i]
                        == mat_view(hay@)[off + i]);
            }
            lemma_mat_dot_bound(
                mat_view(q@).take(r as int),
                mat_view(hay@).subrange(off as int, off + r),
            );
            assert(row_ok(mat_view(q@)[r as int]) && row_ok(mat_view(hay@)[off + r]));
            lemma_dot_bound(q@[r as int]@, hay@[off + r]@);
        }
        let p: i64 = vec_dot(&q[r], &hay[off + r]);
        acc = acc + p;
        r = r + 1;
        proof {
            let qs = mat_view(q@).take(r as int);
            let hs = mat_view(hay@).subrange(off as int, off + r);
            assert(qs.drop_last() =~= mat_view(q@).take(r - 1));
            assert(hs.drop_last() =~= mat_view(hay@).subrange(off as int, off + (r - 1)));
            assert(qs.last() == q@[r - 1]@);
            assert(hs.last() == hay@[off + r - 1]@);
        }
    }
    proof {
        assert(mat_view(q@).take(n as int) =~= mat_view(q@));
    }
    acc
}

/// The squared norm of the slice of `hay` of `rows` rows starting at `off`.
fn window_energy(hay: &Vec<Vec<i16>>, off: usize, rows: usize) -> (e: i64)
    requires
        mat_ok(mat_view(hay@)),
        rows <= MAX_QUERY_ROWS,
        off + rows <= hay@.len(),
    ensures
        e == mat_energy(mat_view(hay@).subrange(off as int, off + rows)),
        e >= 0,
{
    let hlen = hay.len();
    proof {
        assert(hay@.len() == hlen);
    }
    let mut acc: i64 = 0;
    let mut r: usize = 0;
    while r < rows
        invariant
            mat_ok(mat_view(hay@)),
            rows <= MAX_QUERY_ROWS,
            off + rows <= hay@.len(),
            hay@.len() <= usize::MAX,
            r <= rows,
            acc == mat_energy(mat_view(hay@).subrange(off as int, off + r)),
        decreases rows - r,
    {
        proof {
            let hs = mat_view(hay@).subrange(off as int, off + r);
            assert(mat_ok(hs)) by {
                assert(forall|i: int|
                    0 <= i < r ==> #[trigger] hs[i] == mat_view(hay@)[off + i]);
            }
            lemma_mat_dot_bound(hs, hs);
            assert(row_ok(mat_view(hay@)[off + r]));
            lemma_dot_bound(hay@[off + r]@, hay@[off + r]@);
            lemma_dot_self_nonneg(hay@[off + r]@);
            lemma_mat_energy_nonneg(hs);
        }
        let p: i64 = vec_dot(&hay[off + r], &hay[off + r]);
        acc = acc + p;
        r = r + 1;
        proof {
            let hs = mat_view(hay@).subrange(off as int, off + r);
            assert(hs.drop_last() =~= mat_view(hay@).subrange(off as int, off + (r - 1)));
            assert(hs.last() == hay@[off + r - 1]@);
        }
    }
    proof {
        lemma_mat_energy_nonneg(mat_view(hay@).subrange(off as int, off + rows));
    }
    acc
}

/// The integer square root, rounded down, of a value below `2^96`.
fn isqrt_u128(x: u128) -> (r: u128)
    requires
        x < 0x1_0000_0000_0000_0000_0000_0000,
    ensures
        is_sqrt(x as int, r as int),
{
    let mut lo: u128 = 0;
    let mut hi: u128 = 0x1_0000_0000_0000;
    proof {
        assert((0x1_0000_0000_0000 as int) * (0x1_0000_0000_0000 as int)
            == 0x1_0000_0000_0000_0000_0000_0000);
    }
    while hi - lo > 1
        invariant
            lo < hi,
            hi <= 0x1_0000_0000_0000,
            (lo as int) * (lo as int) <= x as int,
            (x as int) < (hi as int) * (hi as int),
        decreases hi - lo,
    {
        let mid: u128 = lo + (hi - lo) / 2;
        proof {
            assert((mid as int) * (mid as int) <= (0x1_0000_0000_0000 as int) * (
            0x1_0000_0000_0000 as int)) by (nonlinear_arith)
                requires
                    0 <= mid <= 0x1_0000_0000_0000,
            ;
        }
        let sq: u128 = mid * mid;
        if sq <= x {
            lo = mid;
        } else {
            hi = mid;
        }
    }
    proof {
        assert(hi == lo + 1);
    }
    lo
}

/// The cosine score in thousandths from the dot product `d` and the two
/// squared norms `e1 > 0` and `e2 > 0`.
fn milli_of(d: i64, e1: i64, e2: i64) -> (s: i64)
    requires
        0 < e1 <= 0x800_0000_0000,
        0 < e2 <= 0x800_0000_0000,
        -0x800_0000_0000 <= d <= 0x800_0000_0000,
    ensures
        s == milli_score(d as int, e1 * e2),
{
    proof {
        assert((e1 as int) * (e2 as int) <= 0x800_0000_0000 * 0x800_0000_0000)
            by (nonlinear_arith)
            requires
                0 < e1 <= 0x800_0000_0000,
                0 < e2 <= 0x800_0000_0000,
        ;
        assert((e1 as int) * (e2 as int) > 0) by (nonlinear_arith)
            requires
                0 < e1,
                0 < e2,
        ;
    }
    let ee: u128 = (e1 as u128) * (e2 as u128);
    let root: u128 = isqrt_u128(ee);
    proof {
        lemma_sqrt_is(ee as int, root as int);
        assert(root >= 1) by {
            assert(is_sqrt(ee as int, root as int));
            assert(ee >= 1);
        }
        assert(root as int * root as int <= ee as int);
        assert(root <= 0x1_0000_0000_0000) by (nonlinear_arith)
            requires
                root as int * root as int <= ee as int,
                ee < 0x1_0000_0000_0000_0000_0000_0000,
                root >= 0,
        ;
    }
    if d >= 0 {
        let num: i128 = 1000 * (d as i128);
        let q: i128 = num / (root as i128);
        proof {
            lemma_div_pos_is_pos(num as int, root as int);
            lemma_div_nonincreasing(num as int, root as int);
        }
        q as i64
    } else {
        let num: i128 = 1000 * (-(d as i128));
        let q: i128 = num / (root as i128);
        proof {
            lemma_div_pos_is_pos(num as int, root as int);
            lemma_div_nonincreasing(num as int, root as int);
        }
        -(q as i64)
    }
}

/// The cosine similarity of two equally long vectors, as a thousandths
/// score; 0 when either vector has zero norm.
pub fn cosine_similarity(u: &Vec<i16>, v: &Vec<i16>) -> (s: i64)
    requires
        u@.len() == v@.len(),
        u@.len() <= 4000,
    ensures
        s == milli_score(dot(u@, v@), dot(u@, u@) * dot(v@, v@)),
        -1000 <= s <= 1000,
{
    let d = vec_dot(u, v);
    let eu = vec_dot(u, u);
    let ev = vec_dot(v, v);
    proof {
        lemma_dot_self_nonneg(u@);
        lemma_dot_self_nonneg(v@);
        lemma_dot_bound(u@, v@);
        lemma_dot_bound(u@, u@);
        lemma_dot_bound(v@, v@);
    }
    if eu == 0 || ev == 0 {
        proof {
            assert(eu * ev == 0) by (nonlinear_arith)
                requires
                    eu == 0 || ev == 0,
            ;
        }
        0
    } else {
        let s = milli_of(d, eu, ev);
        proof {
            lemma_dot_cauchy_schwarz(u@, v@);
            assert((eu as int) * (ev as int) > 0) by (nonlinear_arith)
                requires
                    eu > 0,
                    ev > 0,
            ;
            lemma_milli_score_range(d as int, (eu as int) * (ev as int));
        }
        s
    }
}

/// Cauchy–Schwarz keeps every cosine score within one thousand thousandths.
proof fn lemma_milli_score_range(d: int, ee: int)
    requires
        ee > 0,
        d * d <= ee,
    ensures
        -1000 <= milli_score(d, ee) <= 1000,
{
    let root = sqrt_floor(ee);
    assert(is_sqrt(ee, root)) by {
        lemma_sqrt_exists(ee);
    }
    assert(root >= 1);
    if d >= 0 {
        assert(d <= root) by (nonlinear_arith)
            requires
                d * d <= ee,
                ee < (root + 1) * (root + 1),
                d >= 0,
                root >= 0,
        ;
        assert(1000 * d <= 1000 * root);
        assert(milli_score(d, ee) == 1000 * d / root);
        assert(0 <= 1000 * d / root <= 1000) by (nonlinear_arith)
            requires
                root >= 1,
                0 <= 1000 * d,
                1000 * d <= 1000 * root,
        ;
    } else {
        assert(-d <= root) by (nonlinear_arith)
            requires
                d * d <= ee,
                ee < (root + 1) * (root + 1),
                d < 0,
                root >= 0,
        ;
        assert(milli_score(d, ee) == -(1000 * (-d) / root));
        assert(0 <= 1000 * (-d) / root <= 1000) by (nonlinear_arith)
            requires
                root >= 1,
                0 <= 1000 * (-d),
                1000 * (-d) <= 1000 * root,
        ;
    }
}

// ---------------------------------------------------------------------------
// Candidates and the matcher's order on them
// ---------------------------------------------------------------------------

/// A query shape the matcher accepts: well-formed rows, and a row count that
/// gives a positive slide step and bounded intermediate products.
pub open spec fn query_shape_ok(q: Seq<Seq<i16>>) -> bool {
    mat_ok(q) && 2 <= q.len() <= MAX_QUERY_ROWS
}

/// The matcher visits offset `i` of a fingerprint of `hay_len` rows when the
/// query has `n` rows: multiples of half the query length, while a full
/// query-shaped slice remains.
pub open spec fn valid_offset(n: int, hay_len: int, i: int) -> bool {
    0 <= i && i % (n / 2) == 0 && i + n <= hay_len
}

/// The dot product of the query against the slice of `h` at offset `i`.
pub open spec fn off_dot(q: Seq<Seq<i16>>, h: Seq<Seq<i16>>, i: int) -> int {
    mat_dot(q, h.subrange(i, i + q.len()))
}

/// The squared norm of the slice of `h` of query shape at offset `i`.
pub open spec fn off_energy(q: Seq<Seq<i16>>, h: Seq<Seq<i16>>, i: int) -> int {
    mat_energy(h.subrange(i, i + q.len()))
}

/// A candidate scores positively: positive alignment against a slice of
/// positive energy. Only such candidates can ever become the tracked best,
/// which starts from a floor of zero.
pub open spec fn score_pos(d: int, e: int) -> bool {
    d > 0 && e > 0
}

/// Candidate `(d1, e1)` replaces a tracked best of `(d2, e2)`: its score is
/// positive and strictly greater. Cosines are compared exactly, by
/// cross-multiplied squares; the query's own norm is common to both sides
/// and cancels.
pub open spec fn beats(d1: int, e1: int, d2: int, e2: int) -> bool {
    score_pos(d1, e1) && (!score_pos(d2, e2) || d1 * d1 * e2 > d2 * d2 * e1)
}

/// What stands strictly above the old best also stands strictly above
/// everything the old best was not below.
proof fn lemma_beats_shift(cd: int, ce: int, bd: int, be: int, nd: int, ne: int)
    requires
        !beats(cd, ce, bd, be),
        beats(nd, ne, bd, be),
        score_pos(bd, be),
    ensures
        beats(nd, ne, cd, ce),
{
    if score_pos(cd, ce) {
        assert(cd * cd * be <= bd * bd * ce);
        assert(nd * nd * be > bd * bd * ne);
        assert((cd * cd * be) * ne <= (bd * bd * ce) * ne) by (nonlinear_arith)
            requires
                cd * cd * be <= bd * bd * ce,
                ne > 0,
        ;
        assert((bd * bd * ne) * ce < (nd * nd * be) * ce) by (nonlinear_arith)
            requires
                nd * nd * be > bd * bd * ne,
                ce > 0,
        ;
        assert((bd * bd * ce) * ne == (bd * bd * ne) * ce) by (nonlinear_arith);
        assert((cd * cd * be) * ne < (nd * nd * be) * ce);
        assert((cd * cd * be) * ne == be * (cd * cd * ne)) by (nonlinear_arith);
        assert((nd * nd * be) * ce == be * (nd * nd * ce)) by (nonlinear_arith);
        assert(cd * cd * ne < nd * nd * ce) by (nonlinear_arith)
            requires
                be * (cd * cd * ne) < be * (nd * nd * ce),
                be > 0,
        ;
    }
}

/// Not above the entry's best, which is itself not above the tracked best:
/// then not above the tracked best either.
proof fn lemma_no_beats_trans(cd: int, ce: int, ed: int, ee: int, bd: int, be: int)
    requires
        !beats(cd, ce, ed, ee),
        !beats(ed, ee, bd, be),
        score_pos(ed, ee),
        score_pos(bd, be),
    ensures
        !beats(cd, ce, bd, be),
{
    if score_pos(cd, ce) {
        assert(cd * cd * ee <= ed * ed * ce);
        assert(ed * ed * be <= bd * bd * ee);
        assert((cd * cd * ee) * be <= (ed * ed * ce) * be) by (nonlinear_arith)
            requires
                cd * cd * ee <= ed * ed * ce,
                be > 0,
        ;
        assert((ed * ed * be) * ce <= (bd * bd * ee) * ce) by (nonlinear_arith)
            requires
                ed * ed * be <= bd * bd * ee,
                ce > 0,
        ;
        assert((ed * ed * ce) * be == (ed * ed * be) * ce) by (nonlinear_arith);
        assert((cd * cd * ee) * be <= (bd * bd * ee) * ce);
        assert((cd * cd * ee) * be == ee * (cd * cd * be)) by (nonlinear_arith);
        assert((bd * bd * ee) * ce == ee * (bd * bd * ce)) by (nonlinear_arith);
        assert(cd * cd * be <= bd * bd * ce) by (nonlinear_arith)
            requires
                ee * (cd * cd * be) <= ee * (bd * bd * ce),
                ee > 0,
        ;
    }
}

/// Offset `i` is the first offset of `h` attaining the entry's maximum
/// positive score against the query `q`.
pub open spec fn is_entry_best(q: Seq<Seq<i16>>, h: Seq<Seq<i16>>, i: int) -> bool {
    &&& valid_offset(q.len() as int, h.len() as int, i)
    &&& score_pos(off_dot(q, h, i), off_energy(q, h, i))
    &&& forall|i2: int| #[trigger] valid_offset(q.len() as int, h.len() as int, i2) ==> !beats(
        off_dot(q, h, i2),
        off_energy(q, h, i2),
        off_dot(q, h, i),
        off_energy(q, h, i),
    )
    &&& forall|i2: int| #[trigger] valid_offset(q.len() as int, h.len() as int, i2) && i2 < i
        ==> beats(off_dot(q, h, i), off_energy(q, h, i), off_dot(q, h, i2), off_energy(q, h, i2))
}

/// No offset of `h` scores positively against the query `q`.
pub open spec fn entry_no_pos(q: Seq<Seq<i16>>, h: Seq<Seq<i16>>) -> bool {
    forall|i: int| #[trigger] valid_offset(q.len() as int, h.len() as int, i) ==> !score_pos(
        off_dot(q, h, i),
        off_energy(q, h, i),
    )
}

/// Two multiples of `step` less than one `step` apart are the same.
proof fn lemma_unique_multiple_in_window(step: int, a: int, b: int)
    requires
        step > 0,
        a % step == 0,
        b % step == 0,
        a <= b < a + step,
    ensures
        a == b,
{
    vstd::arithmetic::div_mod::lemma_fundamental_div_mod(a, step);
    vstd::arithmetic::div_mod::lemma_fundamental_div_mod(b, step);
    assert(a == b) by (nonlinear_arith)
        requires
            a == step * (a / step),
            b == step * (b / step),
            a <= b < a + step,
            step > 0,
    ;
}

/// Whether one candidate replaces another as the tracked best.
fn beats_exec(d1: i64, e1: i64, d2: i64, e2: i64) -> (b: bool)
    requires
        -0x400_0000_0000 <= d1 <= 0x400_0000_0000,
        0 <= e1 <= 0x400_0000_0000,
        -0x400_0000_0000 <= d2 <= 0x400_0000_0000,
        0 <= e2 <= 0x400_0000_0000,
    ensures
        b == beats(d1 as int, e1 as int, d2 as int, e2 as int),
{
    if !(d1 > 0 && e1 > 0) {
        false
    } else if !(d2 > 0 && e2 > 0) {
        true
    } else {
        proof {
            assert(0 <= (d1 as int) * (d1 as int) <= 0x400_0000_0000 * 0x400_0000_0000)
                by (nonlinear_arith)
                requires
                    -0x400_0000_0000 <= d1 <= 0x400_0000_0000,
            ;
            assert(((d1 as int) * (d1 as int)) * (e2 as int) <= (0x400_0000_0000
                * 0x400_0000_0000) * 0x400_0000_0000) by (nonlinear_arith)
                requires
                    0 <= (d1 as int) * (d1 as int) <= 0x400_0000_0000 * 0x400_0000_0000,
                    0 <= e2 <= 0x400_0000_0000,
            ;
            assert(0 <= (d2 as int) * (d2 as int) <= 0x400_0000_0000 * 0x400_0000_0000)
                by (nonlinear_arith)
                requires
                    -0x400_0000_0000 <= d2 <= 0x400_0000_0000,
            ;
            assert(((d2 as int) * (d2 as int)) * (e1 as int) <= (0x400_0000_0000
                * 0x400_0000_0000) * 0x400_0000_0000) by (nonlinear_arith)
                requires
                    0 <= (d2 as int) * (d2 as int) <= 0x400_0000_0000 * 0x400_0000_0000,
                    0 <= e1 <= 0x400_0000_0000,
            ;
        }
        let lhs: i128 = (d1 as i128) * (d1 as i128) * (e2 as i128);
        let rhs: i128 = (d2 as i128) * (d2 as i128) * (e1 as i128);
        lhs > rhs
    }
}

/// Scans one fingerprint: the first offset with the entry's maximum positive
/// score, its dot product and slice energy — or the report that no offset
/// scores positively.
fn scan_entry(q: &Vec<Vec<i16>>, hay: &Vec<Vec<i16>>) -> (res: (bool, i64, i64, usize))
    requires
        query_shape_ok(mat_view(q@)),
        mat_ok(mat_view(hay@)),
    ensures
        res.0 ==> is_entry_best(mat_view(q@), mat_view(hay@), res.3 as int) && res.1 == off_dot(
            mat_view(q@),
            mat_view(hay@),
            res.3 as int,
        ) && res.2 == off_energy(mat_view(q@), mat_view(hay@), res.3 as int),
        !res.0 ==> entry_no_pos(mat_view(q@), mat_view(hay@)),
        -0x400_0000_0000 <= res.1 <= 0x400_0000_0000,
        0 <= res.2 <= 0x400_0000_0000,
{
    let ghost qv = mat_view(q@);
    let ghost hv = mat_view(hay@);
    let n = q.len();
    let step = n / 2;
    let hlen = hay.len();
    let mut found = false;
    let mut bd: i64 = 0;
    let mut be: i64 = 0;
    let mut boff: usize = 0;
    if hlen >= n {
        let last = hlen - n;
        let mut i: usize = 0;
        proof {
            vstd::arithmetic::div_mod::lemma_small_mod(0, step as nat);
        }
        while i <= last
            invariant
                query_shape_ok(qv),
                mat_ok(hv),
                qv == mat_view(q@),
                hv == mat_view(hay@),
                n == qv.len(),
                step == n / 2,
                1 <= step <= n,
                n <= MAX_QUERY_ROWS,
                hlen == hv.len(),
                hlen <= usize::MAX,
                hlen >= n,
                last == hlen - n,
                (i as int) % (step as int) == 0,
                -0x400_0000_0000 <= bd <= 0x400_0000_0000,
                0 <= be <= 0x400_0000_0000,
                !found ==> forall|i2: int|
                    #[trigger] valid_offset(n as int, hlen as int, i2) && i2 < i ==> !score_pos(
                        off_dot(qv, hv, i2),
                        off_energy(qv, hv, i2),
                    ),
                found ==> valid_offset(n as int, hlen as int, boff as int) && boff < i && bd
                    == off_dot(qv, hv, boff as int) && be == off_energy(qv, hv, boff as int)
                    && score_pos(bd as int, be as int),
                found ==> forall|i2: int|
                    #[trigger] valid_offset(n as int, hlen as int, i2) && i2 < i ==> !beats(
                        off_dot(qv, hv, i2),
                        off_energy(qv, hv, i2),
                        bd as int,
                        be as int,
                    ),
                found ==> forall|i2: int|
                    #[trigger] valid_offset(n as int, hlen as int, i2) && i2 < boff ==> beats(
                        bd as int,
                        be as int,
                        off_dot(qv, hv, i2),
                        off_energy(qv, hv, i2),
                    ),
            decreases last + step - i,
        {
            proof {
                let ws = hv.subrange(i as int, i + n);
                assert(mat_ok(ws)) by {
                    assert(forall|k: int| 0 <= k < n ==> #[trigger] ws[k] == hv[i + k]);
                }
                lemma_mat_dot_bound(qv, ws);
                lemma_mat_dot_bound(ws, ws);
                lemma_mat_energy_nonneg(ws);
            }
            let d = window_dot(q, hay, i);
            let e = window_energy(hay, i, n);
            let replaces = if !found {
                d > 0 && e > 0
            } else {
                beats_exec(d, e, bd, be)
            };
            proof {
                assert(valid_offset(n as int, hlen as int, i as int));
            }
            if replaces {
                proof {
                    if found {
                        assert forall|i2: int|
                            #[trigger] valid_offset(n as int, hlen as int, i2) && i2
                                < i implies beats(
                            d as int,
                            e as int,
                            off_dot(qv, hv, i2),
                            off_energy(qv, hv, i2),
                        ) by {
                            lemma_beats_shift(
                                off_dot(qv, hv, i2),
                                off_energy(qv, hv, i2),
                                bd as int,
                                be as int,
                                d as int,
                                e as int,
                            );
                        }
                    }
                }
                found = true;
                bd = d;
                be = e;
                boff = i;
            }
            let ghost iold = i as int;
            i = i + step;
            proof {
                vstd::arithmetic::div_mod::lemma_mod_adds(iold, step as int, step as int);
                vstd::arithmetic::div_mod::lemma_mod_self_0(step as int);
                assert forall|i2: int|
                    #[trigger] valid_offset(n as int, hlen as int, i2) && i2 < i && !(i2
                        < iold) implies i2 == iold by {
                    lemma_unique_multiple_in_window(step as int, iold, i2);
                }
            }
        }
        proof {
            assert(forall|i2: int|
                #[trigger] valid_offset(n as int, hlen as int, i2) ==> i2 <= last);
        }
    } else {
        proof {
            assert(forall|i2: int|
                #[trigger] valid_offset(n as int, hlen as int, i2) ==> i2 + n <= hlen);
        }
    }
    (found, bd, be, boff)
}

// ---------------------------------------------------------------------------
// The store
// ---------------------------------------------------------------------------

/// One stored fingerprint with its label; immutable after insertion.
pub struct DatabaseEntry {
    pub label: String,
    /// Feature matrix: one row per analysis frame, `N_FILTERS` columns.
    pub fingerprint: Vec<Vec<i16>>,
}

/// The best match of a query: the label of the winning entry and the cosine
/// score in thousandths.
#[derive(Debug)]
pub struct QueryResult {
    pub label: String,
    pub score: i64,
}

/// The append-only in-memory store of labelled fingerprints.
pub struct Database {
    entries: Vec<DatabaseEntry>,
}

/// The feature matrix of an entry, as its abstract sequence of rows.
pub open spec fn entry_mat(e: DatabaseEntry) -> Seq<Seq<i16>> {
    mat_view(e.fingerprint@)
}

/// `(j, i)` names offset `i` of the fingerprint of entry `j`.
pub open spec fn valid_cand(es: Seq<DatabaseEntry>, q: Seq<Seq<i16>>, j: int, i: int) -> bool {
    0 <= j < es.len() && valid_offset(q.len() as int, entry_mat(es[j]).len() as int, i)
}

/// The dot product of the query against candidate `(j, i)`.
pub open spec fn cand_dot(es: Seq<DatabaseEntry>, q: Seq<Seq<i16>>, j: int, i: int) -> int {
    off_dot(q, entry_mat(es[j]), i)
}

/// The squared norm of the slice behind candidate `(j, i)`.
pub open spec fn cand_energy(es: Seq<DatabaseEntry>, q: Seq<Seq<i16>>, j: int, i: int) -> int {
    off_energy(q, entry_mat(es[j]), i)
}

/// The matcher's scan order: entry index first, then offset.
pub open spec fn scan_before(j1: int, i1: int, j2: int, i2: int) -> bool {
    j1 < j2 || (j1 == j2 && i1 < i2)
}

/// Some candidate in the store scores positively against the query.
pub open spec fn some_match(es: Seq<DatabaseEntry>, q: Seq<Seq<i16>>) -> bool {
    exists|j: int, i: int| #[trigger] valid_cand(es, q, j, i) && score_pos(
        cand_dot(es, q, j, i),
        cand_energy(es, q, j, i),
    )
}

/// Candidate `(j, i)` is the first in scan order to attain the maximum
/// positive score: nothing beats it, and it beats everything before it.
pub open spec fn is_winner(es: Seq<DatabaseEntry>, q: Seq<Seq<i16>>, j: int, i: int) -> bool {
    &&& valid_cand(es, q, j, i)
    &&& score_pos(cand_dot(es, q, j, i), cand_energy(es, q, j, i))
    &&& forall|j2: int, i2: int| #[trigger] valid_cand(es, q, j2, i2) ==> !beats(
        cand_dot(es, q, j2, i2),
        cand_energy(es, q, j2, i2),
        cand_dot(es, q, j, i),
        cand_energy(es, q, j, i),
    )
    &&& forall|j2: int, i2: int|
        #[trigger] valid_cand(es, q, j2, i2) && scan_before(j2, i2, j, i) ==> beats(
            cand_dot(es, q, j, i),
            cand_energy(es, q, j, i),
            cand_dot(es, q, j2, i2),
            cand_energy(es, q, j2, i2),
        )
}

/// What `Database::query` promises: no result exactly when no candidate
/// scores positively; otherwise the label of the first maximal candidate and
/// its exact cosine score in thousandths.
pub open spec fn query_post(es: Seq<DatabaseEntry>, q: Seq<Seq<i16>>, r: Option<QueryResult>) -> bool {
    match r {
        None => !some_match(es, q),
        Some(qr) => exists|j: int, i: int|
            #[trigger] is_winner(es, q, j, i) && qr.label@ == es[j].label@ && qr.score
                == milli_score(
                cand_dot(es, q, j, i),
                mat_energy(q) * cand_energy(es, q, j, i),
            ),
    }
}

impl Database {
    /// The stored entries, in insertion order.
    pub closed spec fn entries_view(self) -> Seq<DatabaseEntry> {
        self.entries@
    }

    /// Every stored fingerprint has well-formed rows.
    pub open spec fn wf(self) -> bool {
        forall|j: int| 0 <= j < self.entries_view().len() ==> mat_ok(entry_mat(
            #[trigger] self.entries_view()[j],
        ))
    }

    /// An empty store.
    pub fn new() -> (db: Database)
        ensures
            db.wf(),
            db.entries_view() == Seq::<DatabaseEntry>::empty(),
    {
        Database { entries: Vec::new() }
    }

    /// Appends a labelled fingerprint. A matrix with a row that is not
    /// `N_FILTERS` wide is rejected and the store is left unchanged.
    pub fn insert(&mut self, label: String, fingerprint: Vec<Vec<i16>>) -> (r: Result<
        (),
        DetectorError,
    >)
        requires
            old(self).wf(),
        ensures
            final(self).wf(),
            mat_ok(mat_view(fingerprint@)) ==> r is Ok && final(self).entries_view() == old(
                self,
            ).entries_view().push((DatabaseEntry { label, fingerprint })),
            !mat_ok(mat_view(fingerprint@)) ==> r == Err::<(), DetectorError>(
                DetectorError::MalformedFingerprint,
            ) && final(self).entries_view() == old(self).entries_view(),
    {
        let rows = fingerprint.len();
        let mut k: usize = 0;
        while k < rows
            invariant
                self == old(self),
                old(self).wf(),
                rows == fingerprint@.len(),
                k <= rows,
                forall|i: int| 0 <= i < k ==> row_ok(#[trigger] mat_view(fingerprint@)[i]),
            decreases rows - k,
        {
            if fingerprint[k].len() != N_FILTERS {
                proof {
                    assert(mat_view(fingerprint@)[k as int] == fingerprint@[k as int]@);
                    assert(!mat_ok(mat_view(fingerprint@)));
                }
                return Err(DetectorError::MalformedFingerprint);
            }
            proof {
                assert(mat_view(fingerprint@)[k as int] == fingerprint@[k as int]@);
            }
            k = k + 1;
        }
        proof {
            assert(mat_ok(mat_view(fingerprint@)));
        }
        let entry = DatabaseEntry { label, fingerprint };
        self.entries.push(entry);
        proof {
            assert forall|j: int| 0 <= j < self.entries_view().len() implies mat_ok(
                entry_mat(#[trigger] self.entries_view()[j]),
            ) by {
                if j < old(self).entries_view().len() {
                    assert(self.entries_view()[j] == old(self).entries_view()[j]);
                    assert(mat_ok(entry_mat(old(self).entries_view()[j])));
                } else {
                    assert(self.entries_view()[j] == (DatabaseEntry { label, fingerprint }));
                }
            }
        }
        Ok(())
    }

    /// The best match of the query window across the whole store, or `None`
    /// when no candidate scores positively — in particular on an empty
    /// store, or when no stored fingerprint is long enough.
    pub fn query(&self, query: &Vec<Vec<i16>>) -> (r: Option<QueryResult>)
        requires
            self.wf(),
            query_shape_ok(mat_view(query@)),
        ensures
            query_post(self.entries_view(), mat_view(query@), r),
            r matches Some(qr) ==> 0 <= qr.score <= 1000,
    {
        let ghost es = self.entries@;
        let ghost qv = mat_view(query@);
        let n = query.len();
        let nentries = self.entries.len();
        let mut found = false;
        let mut bd: i64 = 0;
        let mut be: i64 = 0;
        let mut bj: usize = 0;
        let mut bi: usize = 0;
        let mut j: usize = 0;
        while j < nentries
            invariant
                self.wf(),
                query_shape_ok(qv),
                es == self.entries@,
                qv == mat_view(query@),
                n == qv.len(),
                nentries == es.len(),
                j <= nentries,
                -0x400_0000_0000 <= bd <= 0x400_0000_0000,
                0 <= be <= 0x400_0000_0000,
                !found ==> forall|j2: int, i2: int|
                    #[trigger] valid_cand(es, qv, j2, i2) && j2 < j ==> !score_pos(
                        cand_dot(es, qv, j2, i2),
                        cand_energy(es, qv, j2, i2),
                    ),
                found ==> valid_cand(es, qv, bj as int, bi as int) && bj < j && bd == cand_dot(
                    es,
                    qv,
                    bj as int,
                    bi as int,
                ) && be == cand_energy(es, qv, bj as int, bi as int) && score_pos(
                    bd as int,
                    be as int,
                ),
                found ==> forall|j2: int, i2: int|
                    #[trigger] valid_cand(es, qv, j2, i2) && j2 < j ==> !beats(
                        cand_dot(es, qv, j2, i2),
                        cand_energy(es, qv, j2, i2),
                        bd as int,
                        be as int,
                    ),
                found ==> forall|j2: int, i2: int|
                    #[trigger] valid_cand(es, qv, j2, i2) && scan_before(
                        j2,
                        i2,
                        bj as int,
                        bi as int,
                    ) ==> beats(
                        bd as int,
                        be as int,
                        cand_dot(es, qv, j2, i2),
                        cand_energy(es, qv, j2, i2),
                    ),
            decreases nentries - j,
        {
            proof {
                assert(self.entries_view() == es);
                assert(mat_ok(entry_mat(self.entries_view()[j as int])));
            }
            let hay = &self.entries[j].fingerprint;
            let ghost hv = entry_mat(es[j as int]);
            proof {
                assert(mat_view(hay@) == hv);
                // Candidates of entry `j` are exactly the valid offsets of `hv`.
                assert(forall|i2: int| valid_cand(es, qv, j as int, i2) == #[trigger] valid_offset(
                    n as int,
                    hv.len() as int,
                    i2,
                ));
            }
            let (fe, d, e, off) = scan_entry(query, hay);
            let ghost old_found = found;
            let ghost old_bd = bd as int;
            let ghost old_be = be as int;
            if fe {
                let replaces = if !found {
                    true
                } else {
                    beats_exec(d, e, bd, be)
                };
                if replaces {
                    found = true;
                    bd = d;
                    be = e;
                    bj = j;
                    bi = off;
                    proof {
                        assert(is_entry_best(qv, hv, off as int));
                        assert(valid_cand(es, qv, j as int, off as int));
                        // Nothing scanned so far beats the new best, and the
                        // new best beats everything before it in scan order.
                        assert forall|j2: int, i2: int|
                            #[trigger] valid_cand(es, qv, j2, i2) && j2 < j + 1 implies !beats(
                            cand_dot(es, qv, j2, i2),
                            cand_energy(es, qv, j2, i2),
                            d as int,
                            e as int,
                        ) && (scan_before(j2, i2, j as int, off as int) ==> beats(
                            d as int,
                            e as int,
                            cand_dot(es, qv, j2, i2),
                            cand_energy(es, qv, j2, i2),
                        )) by {
                            if j2 == j {
                                assert(valid_offset(n as int, hv.len() as int, i2));
                                assert(!beats(
                                    off_dot(qv, hv, i2),
                                    off_energy(qv, hv, i2),
                                    off_dot(qv, hv, off as int),
                                    off_energy(qv, hv, off as int),
                                ));
                            } else {
                                if old_found {
                                    lemma_beats_shift(
                                        cand_dot(es, qv, j2, i2),
                                        cand_energy(es, qv, j2, i2),
                                        old_bd,
                                        old_be,
                                        d as int,
                                        e as int,
                                    );
                                }
                            }
                        }
                    }
                } else {
                    proof {
                        // The entry's best does not beat the tracked best, so
                        // nothing in this entry does either.
                        assert forall|j2: int, i2: int|
                            #[trigger] valid_cand(es, qv, j2, i2) && j2 < j + 1 implies !beats(
                            cand_dot(es, qv, j2, i2),
                            cand_energy(es, qv, j2, i2),
                            bd as int,
                            be as int,
                        ) by {
                            if j2 == j {
                                assert(valid_offset(n as int, hv.len() as int, i2));
                                assert(!beats(
                                    off_dot(qv, hv, i2),
                                    off_energy(qv, hv, i2),
                                    d as int,
                                    e as int,
                                ));
                                lemma_no_beats_trans(
                                    cand_dot(es, qv, j2, i2),
                                    cand_energy(es, qv, j2, i2),
                                    d as int,
                                    e as int,
                                    bd as int,
                                    be as int,
                                );
                            }
                        }
                    }
                }
            } else {
                proof {
                    // No offset of this entry scores positively.
                    assert(entry_no_pos(qv, hv));
                    assert forall|j2: int, i2: int|
                        #[trigger] valid_cand(es, qv, j2, i2) && j2 == j implies !score_pos(
                        cand_dot(es, qv, j2, i2),
                        cand_energy(es, qv, j2, i2),
                    ) by {
                        assert(valid_offset(n as int, hv.len() as int, i2));
                    }
                }
            }
            j = j + 1;
        }
        if !found {
            proof {
                assert(!some_match(es, qv)) by {
                    assert(forall|j2: int, i2: int|
                        #[trigger] valid_cand(es, qv, j2, i2) ==> !score_pos(
                            cand_dot(es, qv, j2, i2),
                            cand_energy(es, qv, j2, i2),
                        ));
                }
            }
            None
        } else {
            proof {
                assert(self.entries_view() == es);
                assert(mat_ok(entry_mat(self.entries_view()[bj as int])));
                let hv = entry_mat(es[bj as int]);
                let ws = hv.subrange(bi as int, bi + n);
                assert(mat_ok(ws)) by {
                    assert(forall|k: int| 0 <= k < n ==> #[trigger] ws[k] == hv[bi + k]);
                }
                lemma_mat_dot_bound(qv, qv);
                if mat_energy(qv) == 0 {
                    lemma_mat_energy_zero(qv, ws);
                }
            }
            let eq = window_energy(query, 0, n);
            proof {
                assert(mat_view(query@).subrange(0, n as int) =~= qv);
            }
            let sc = milli_of(bd, eq, be);
            proof {
                let hv = entry_mat(es[bj as int]);
                let ws = hv.subrange(bi as int, bi + n);
                assert(mat_ok(ws)) by {
                    assert(mat_ok(hv));
                    assert(forall|k: int| 0 <= k < n ==> #[trigger] ws[k] == hv[bi + k]);
                }
                lemma_mat_cauchy_schwarz(qv, ws);
                assert((eq as int) * (be as int) > 0) by (nonlinear_arith)
                    requires
                        eq > 0,
                        be > 0,
                ;
                lemma_milli_score_range(bd as int, (eq as int) * (be as int));
                assert(is_winner(es, qv, bj as int, bi as int));
                let ee = (eq as int) * (be as int);
                lemma_sqrt_exists(ee);
                let root = sqrt_floor(ee);
                assert(root >= 1) by (nonlinear_arith)
                    requires
                        0 <= root,
                        root * root <= ee,
                        ee < (root + 1) * (root + 1),
                        ee > 0,
                ;
                lemma_div_pos_is_pos(1000 * bd as int, root);
            }
            let label = self.entries[bj].label.clone();
            Some(QueryResult { label, score: sc })
        }
    }
}

/// The best sliding-window score of `needle` against one fingerprint, in
/// thousandths; 0 when no offset scores positively.
pub fn fingerprint_match(needle: &Vec<Vec<i16>>, haystack: &Vec<Vec<i16>>) -> (s: i64)
    requires
        query_shape_ok(mat_view(needle@)),
        mat_ok(mat_view(haystack@)),
    ensures
        entry_no_pos(mat_view(needle@), mat_view(haystack@)) ==> s == 0,
        !entry_no_pos(mat_view(needle@), mat_view(haystack@)) ==> exists|i: int|
            #[trigger] is_entry_best(mat_view(needle@), mat_view(haystack@), i) && s
                == milli_score(
                off_dot(mat_view(needle@), mat_view(haystack@), i),
                mat_energy(mat_view(needle@)) * off_energy(
                    mat_view(needle@),
                    mat_view(haystack@),
                    i,
                ),
            ),
        0 <= s <= 1000,
{
    let ghost qv = mat_view(needle@);
    let ghost hv = mat_view(haystack@);
    let n = needle.len();
    let (fe, d, e, off) = scan_entry(needle, haystack);
    if fe {
        proof {
            let ws = hv.subrange(off as int, off + n);
            assert(mat_ok(ws)) by {
                assert(forall|k: int| 0 <= k < n ==> #[trigger] ws[k] == hv[off + k]);
            }
            lemma_mat_dot_bound(qv, qv);
            if mat_energy(qv) == 0 {
                lemma_mat_energy_zero(qv, ws);
            }
        }
        let eq = window_energy(needle, 0, n);
        proof {
            assert(mat_view(needle@).subrange(0, n as int) =~= qv);
        }
        let sc = milli_of(d, eq, e);
        proof {
            let ws = hv.subrange(off as int, off + n);
            assert(mat_ok(ws)) by {
                assert(forall|k: int| 0 <= k < n ==> #[trigger] ws[k] == hv[off + k]);
            }
            lemma_mat_cauchy_schwarz(qv, ws);
            assert((eq as int) * (e as int) > 0) by (nonlinear_arith)
                requires
                    eq > 0,
                    e > 0,
            ;
            lemma_milli_score_range(d as int, (eq as int) * (e as int));
            let ee = (eq as int) * (e as int);
            lemma_sqrt_exists(ee);
            let root = sqrt_floor(ee);
            assert(root >= 1) by (nonlinear_arith)
                requires
                    0 <= root,
                    root * root <= ee,
                    ee < (root + 1) * (root + 1),
                    ee > 0,
            ;
            lemma_div_pos_is_pos(1000 * d as int, root);
            assert(!entry_no_pos(qv, hv)) by {
                assert(valid_offset(n as int, hv.len() as int, off as int) && score_pos(
                    off_dot(qv, hv, off as int),
                    off_energy(qv, hv, off as int),
                ));
            }
        }
        sc
    } else {
        0
    }
}

// ---------------------------------------------------------------------------
// Laws of the similarity measure and the matcher
// ---------------------------------------------------------------------------

/// A vector with a non-zero coefficient has positive squared norm.
pub proof fn lemma_energy_pos(u: Seq<i16>)
    requires
        exists|i: int| 0 <= i < u.len() && u[i] != 0,
    ensures
        dot(u, u) > 0,
    decreases u.len(),
{
    let i = choose|i: int| 0 <= i < u.len() && u[i] != 0;
    if i == u.len() - 1 {
        lemma_dot_self_nonneg(u.drop_last());
        assert(u.last() * u.last() > 0) by (nonlinear_arith)
            requires
                u.last() != 0,
        ;
    } else {
        assert(u.drop_last()[i] == u[i]);
        lemma_energy_pos(u.drop_last());
        assert(u.last() * u.last() >= 0) by (nonlinear_arith);
    }
}

/// A matrix with a row of positive squared norm has positive energy.
pub proof fn lemma_mat_energy_pos(a: Seq<Seq<i16>>)
    requires
        exists|j: int| 0 <= j < a.len() && dot(a[j], a[j]) > 0,
    ensures
        mat_energy(a) > 0,
    decreases a.len(),
{
    let j = choose|j: int| 0 <= j < a.len() && dot(a[j], a[j]) > 0;
    if j == a.len() - 1 {
        lemma_mat_energy_nonneg(a.drop_last());
    } else {
        assert(a.drop_last()[j] == a[j]);
        lemma_mat_energy_pos(a.drop_last());
        lemma_dot_self_nonneg(a.last());
    }
}

/// The cosine similarity of any non-zero vector with itself is exactly one
/// (a thousand thousandths), and a zero-norm operand always yields zero.
pub proof fn lemma_cosine_self_and_zero(u: Seq<i16>, v: Seq<i16>)
    requires
        u.len() == v.len(),
    ensures
        dot(u, u) > 0 ==> milli_score(dot(u, u), dot(u, u) * dot(u, u)) == 1000,
        dot(v, v) == 0 ==> milli_score(dot(u, v), dot(u, u) * dot(v, v)) == 0,
        (exists|i: int| 0 <= i < u.len() && u[i] != 0) ==> dot(u, u) > 0,
{
    if dot(u, u) > 0 {
        let en = dot(u, u);
        assert(is_sqrt(en * en, en)) by (nonlinear_arith)
            requires
                en > 0,
        ;
        lemma_sqrt_is(en * en, en);
        assert(en * en > 0) by (nonlinear_arith)
            requires
                en > 0,
        ;
        lemma_div_multiples_vanish(1000, en);
        assert(milli_score(en, en * en) == 1000);
    }
    if dot(v, v) == 0 {
        assert(dot(u, u) * dot(v, v) == 0) by (nonlinear_arith)
            requires
                dot(v, v) == 0,
        ;
    }
    if exists|i: int| 0 <= i < u.len() && u[i] != 0 {
        lemma_energy_pos(u);
    }
}

/// A query on an empty store returns no match.
pub proof fn lemma_query_empty_store(
    es: Seq<DatabaseEntry>,
    q: Seq<Seq<i16>>,
    r: Option<QueryResult>,
)
    requires
        es.len() == 0,
        query_post(es, q, r),
    ensures
        r is None,
{
    match r {
        None => {},
        Some(qr) => {
            let (j, i) = choose|j: int, i: int|
                #[trigger] is_winner(es, q, j, i) && qr.label@ == es[j].label@ && qr.score
                    == milli_score(
                    cand_dot(es, q, j, i),
                    mat_energy(q) * cand_energy(es, q, j, i),
                );
            assert(valid_cand(es, q, j, i));
            assert(false);
        },
    }
}

/// Querying with a sub-window taken verbatim from the stored fingerprint, at
/// an offset the matcher visits, returns that entry's label with the full
/// score of one thousand thousandths.
pub proof fn lemma_verbatim_subwindow(
    es: Seq<DatabaseEntry>,
    q: Seq<Seq<i16>>,
    i: int,
    r: Option<QueryResult>,
)
    requires
        es.len() == 1,
        query_shape_ok(q),
        mat_ok(entry_mat(es[0])),
        valid_offset(q.len() as int, entry_mat(es[0]).len() as int, i),
        entry_mat(es[0]).subrange(i, i + q.len() as int) == q,
        mat_energy(q) > 0,
        query_post(es, q, r),
    ensures
        r matches Some(qr) && qr.label@ == es[0].label@ && qr.score == 1000,
{
    let eq = mat_energy(q);
    assert(cand_dot(es, q, 0, i) == eq);
    assert(cand_energy(es, q, 0, i) == eq);
    assert(valid_cand(es, q, 0, i));
    assert(score_pos(eq, eq));
    assert(some_match(es, q));
    match r {
        None => {
            assert(false);
        },
        Some(qr) => {
            let (j, iw) = choose|j: int, iw: int|
                #[trigger] is_winner(es, q, j, iw) && qr.label@ == es[j].label@ && qr.score
                    == milli_score(
                    cand_dot(es, q, j, iw),
                    mat_energy(q) * cand_energy(es, q, j, iw),
                );
            assert(j == 0);
            let d = cand_dot(es, q, 0, iw);
            let e = cand_energy(es, q, 0, iw);
            assert(!beats(eq, eq, d, e));
            assert(score_pos(d, e));
            assert(eq * eq * e <= d * d * eq);
            let hv = entry_mat(es[0]);
            let ws = hv.subrange(iw, iw + q.len() as int);
            assert(mat_ok(ws)) by {
                assert(forall|k: int|
                    0 <= k < q.len() ==> #[trigger] ws[k] == hv[iw + k]);
            }
            lemma_mat_cauchy_schwarz(q, ws);
            assert(d * d <= eq * e);
            assert(d * d == eq * e) by (nonlinear_arith)
                requires
                    eq * eq * e <= d * d * eq,
                    d * d <= eq * e,
                    eq > 0,
            ;
            assert(is_sqrt(d * d, d)) by (nonlinear_arith)
                requires
                    d > 0,
            ;
            lemma_sqrt_is(d * d, d);
            assert(eq * e > 0) by (nonlinear_arith)
                requires
                    eq > 0,
                    e > 0,
            ;
            lemma_div_multiples_vanish(1000, d);
            assert(milli_score(d, eq * e) == 1000);
        },
    }
}

/// Every non-negative integer has an integer square root.
pub proof fn lemma_sqrt_exists(x: int)
    requires
        x >= 0,
    ensures
        is_sqrt(x, sqrt_floor(x)),
    decreases x,
{
    if x == 0 {
        assert(is_sqrt(0, 0));
        lemma_sqrt_is(0, 0);
    } else {
        lemma_sqrt_exists(x - 1);
        let p = sqrt_floor(x - 1);
        if (p + 1) * (p + 1) <= x {
            assert(is_sqrt(x, p + 1)) by (nonlinear_arith)
                requires
                    is_sqrt(x - 1, p),
                    (p + 1) * (p + 1) <= x,
            ;
            lemma_sqrt_is(x, p + 1);
        } else {
            assert(is_sqrt(x, p));
            lemma_sqrt_is(x, p);
        }
    }
}

} // verus!
