//! Fixed-point relevance arithmetic.
//!
//! Scores are unsigned integers: the term-frequency factor carries three
//! decimal places (thousandths) and the inverse-document-frequency factor is
//! scaled by `IDF_UNIT` (2^32), so one whole point of score is `SCORE_SCALE`
//! units. The natural logarithm is rendered as `LN2_FP` (ln 2 at scale 2^32)
//! times the base-two logarithm, linearly interpolated between powers of two;
//! the interpolation is fine enough that within the supported corpus size the
//! factor strictly separates every pair of document frequencies, and the
//! term-frequency factor never drops below one unit, so a positive raw
//! frequency always yields a positive score. Every step is total and
//! deterministic: equal inputs always yield equal scores.

use vstd::prelude::*;

verus! {

use vstd::arithmetic::power2::pow2;
use vstd::arithmetic::power2::lemma2_to64;
use vstd::arithmetic::power2::lemma2_to64_rest;
use vstd::arithmetic::power2::lemma_pow2_unfold;
use vstd::arithmetic::power2::lemma_pow2_strictly_increases;
use vstd::arithmetic::div_mod::lemma_div_plus_one;
use vstd::arithmetic::div_mod::lemma_div_is_ordered;
use vstd::arithmetic::div_mod::lemma_div_pos_is_pos;
use vstd::arithmetic::div_mod::lemma_multiply_divide_lt;

/// One whole point of score: 1000 (term-frequency units) times `IDF_UNIT`.
pub const SCORE_SCALE: u64 = 4294967296000;

/// The scale of the inverse-document-frequency factor: 2^32 units per whole
/// point.
pub const IDF_UNIT: u64 = 4294967296;

/// The natural logarithm of two at scale 2^32.
pub const LN2_FP: u64 = 2977044471;

/// Floor of the base-two logarithm, with `spec_log2(0) == 0`.
pub open spec fn spec_log2(x: int) -> int
    decreases x,
{
    if x <= 1 {
        0
    } else {
        1 + spec_log2(x / 2)
    }
}

pub proof fn lemma_log2_nonneg(x: int)
    ensures
        spec_log2(x) >= 0,
    decreases x,
{
    if x > 1 {
        lemma_log2_nonneg(x / 2);
    }
}

pub proof fn lemma_log2_monotone(x: int, y: int)
    requires
        x <= y,
    ensures
        spec_log2(x) <= spec_log2(y),
    decreases y,
{
    if y > 1 && x > 1 {
        lemma_log2_monotone(x / 2, y / 2);
    } else if y > 1 {
        lemma_log2_nonneg(y);
    }
}

/// Below the `n`-th power of two the base-two logarithm stays below `n`.
pub proof fn lemma_log2_below_pow2(x: int, n: nat)
    requires
        1 <= n,
        x < pow2(n),
    ensures
        spec_log2(x) <= n - 1,
    decreases n,
{
    if x > 1 {
        lemma_pow2_unfold(n);
        if n == 1 {
            lemma2_to64();
        } else {
            assert(x / 2 < pow2((n - 1) as nat));
            lemma_log2_below_pow2(x / 2, (n - 1) as nat);
        }
    }
}

/// Any 64-bit quantity has a base-two logarithm of at most 63.
pub proof fn lemma_log2_u64_bound(x: int)
    requires
        0 <= x <= u64::MAX,
    ensures
        0 <= spec_log2(x) <= 63,
{
    lemma_log2_nonneg(x);
    lemma2_to64();
    lemma_log2_below_pow2(x, 64);
}

/// A positive number sits between the power of two at its logarithm and the
/// next one.
pub proof fn lemma_log2_bracket(x: int)
    requires
        x >= 1,
    ensures
        pow2(spec_log2(x) as nat) <= x < 2 * pow2(spec_log2(x) as nat),
    decreases x,
{
    lemma_log2_nonneg(x);
    if x == 1 {
        lemma2_to64();
    } else {
        lemma_log2_bracket(x / 2);
        let e = spec_log2(x);
        lemma_log2_nonneg(x / 2);
        lemma_pow2_unfold(e as nat);
    }
}

/// Floor of the base-two logarithm of `x`.
pub fn log2_floor(x: u64) -> (r: u64)
    ensures
        r as int == spec_log2(x as int),
        r <= 63,
{
    let mut v: u64 = x;
    let mut r: u64 = 0;
    proof {
        lemma_log2_u64_bound(x as int);
    }
    while v > 1
        invariant
            spec_log2(x as int) == r + spec_log2(v as int),
            r <= 63,
        decreases v,
    {
        proof {
            lemma_log2_u64_bound(x as int);
            lemma_log2_nonneg(v as int / 2);
        }
        v = v / 2;
        r = r + 1;
    }
    r
}

/// The natural logarithm at scale 2^32, interpolated linearly between powers
/// of two: for `2^e <= x < 2^(e+1)`, the value is
/// `(e + (x - 2^e) / 2^e) * LN2_FP`, rounded down, and zero for `x <= 1`.
pub open spec fn spec_ln_fp(x: int) -> int {
    if x <= 1 {
        0
    } else {
        let e = spec_log2(x);
        e * (LN2_FP as int) + (x - pow2(e as nat) as int) * (LN2_FP as int) / (pow2(e as nat) as int)
    }
}

pub proof fn lemma_ln_fp_bounds(x: int)
    requires
        1 <= x <= u64::MAX,
    ensures
        0 <= spec_ln_fp(x) <= 64 * (LN2_FP as int),
{
    if x > 1 {
        let e = spec_log2(x);
        lemma_log2_u64_bound(x);
        lemma_log2_bracket(x);
        let p = pow2(e as nat) as int;
        let m = x - p;
        assert(m * (LN2_FP as int) >= 0) by (nonlinear_arith)
            requires
                m >= 0,
        ;
        lemma_div_pos_is_pos(m * (LN2_FP as int), p);
        assert(m * (LN2_FP as int) < p * (LN2_FP as int)) by (nonlinear_arith)
            requires
                0 <= m < p,
                LN2_FP > 0,
        ;
        lemma_multiply_divide_lt(m * (LN2_FP as int), p, LN2_FP as int);
        assert(e * (LN2_FP as int) <= 63 * (LN2_FP as int)) by (nonlinear_arith)
            requires
                0 <= e <= 63,
        ;
    }
}

/// Within the supported corpus size the interpolated logarithm is strictly
/// increasing: one more document always moves it.
pub proof fn lemma_ln_fp_strict(x1: int, x2: int)
    requires
        1 <= x1 < x2 <= 0xFFFF_FFFF,
    ensures
        spec_ln_fp(x1) < spec_ln_fp(x2),
{
    lemma2_to64();
    lemma2_to64_rest();
    let e2 = spec_log2(x2);
    lemma_log2_bracket(x2);
    lemma_log2_below_pow2(x2, 32);
    lemma_log2_nonneg(x2);
    let p2 = pow2(e2 as nat) as int;
    let m2 = x2 - p2;
    assert(m2 * (LN2_FP as int) >= 0) by (nonlinear_arith)
        requires
            m2 >= 0,
    ;
    lemma_div_pos_is_pos(m2 * (LN2_FP as int), p2);
    if x1 == 1 {
        assert(spec_log2(2) == 1);
        lemma_log2_monotone(2, x2);
        assert(e2 * (LN2_FP as int) >= 1 * (LN2_FP as int)) by (nonlinear_arith)
            requires
                e2 >= 1,
        ;
    } else {
        let e1 = spec_log2(x1);
        lemma_log2_bracket(x1);
        lemma_log2_monotone(x1, x2);
        lemma_log2_nonneg(x1);
        let p1 = pow2(e1 as nat) as int;
        let m1 = x1 - p1;
        assert(p2 <= pow2(31)) by {
            if e2 < 31 {
                lemma_pow2_strictly_increases(e2 as nat, 31);
            }
        }
        assert(p1 <= p2) by {
            if e1 < e2 {
                lemma_pow2_strictly_increases(e1 as nat, e2 as nat);
            }
        }
        if e1 == e2 {
            // same octave: the fractional part moves by at least one unit
            assert(m1 < m2);
            assert(m2 * (LN2_FP as int) >= m1 * (LN2_FP as int) + p1) by (nonlinear_arith)
                requires
                    m1 + 1 <= m2,
                    p1 <= LN2_FP,
            ;
            lemma_div_plus_one(m1 * (LN2_FP as int), p1);
            lemma_div_is_ordered(m1 * (LN2_FP as int) + p1, m2 * (LN2_FP as int), p1);
        } else {
            // the lower octave's value stays under the next octave's floor
            assert(m1 * (LN2_FP as int) < p1 * (LN2_FP as int)) by (nonlinear_arith)
                requires
                    0 <= m1 < p1,
                    LN2_FP > 0,
            ;
            lemma_multiply_divide_lt(m1 * (LN2_FP as int), p1, LN2_FP as int);
            assert((e1 + 1) * (LN2_FP as int) <= e2 * (LN2_FP as int)) by (nonlinear_arith)
                requires
                    e1 + 1 <= e2,
            ;
            assert(e1 * (LN2_FP as int) + (LN2_FP as int) == (e1 + 1) * (LN2_FP as int))
                by (nonlinear_arith);
        }
    }
}

pub proof fn lemma_ln_fp_monotone(x1: int, x2: int)
    requires
        1 <= x1 <= x2 <= 0xFFFF_FFFF,
    ensures
        spec_ln_fp(x1) <= spec_ln_fp(x2),
{
    if x1 < x2 {
        lemma_ln_fp_strict(x1, x2);
    }
}

/// The term-frequency factor in thousandths:
/// `tf * (k1 + 1) / (tf + k1 * (1 - b + b * dl / avg))`, where the average
/// document length is `len_sum / n_docs` and `k1`, `b` arrive in thousandths.
/// The factor is capped above at `1000 + k1_milli` thousandths, the
/// mathematical ceiling of the real-valued quotient, and floored below at one
/// unit so that a positive raw frequency keeps a positive factor.
pub open spec fn spec_tf_factor_milli(
    tf: int,
    n_docs: int,
    dl: int,
    len_sum: int,
    k1_milli: int,
    b_milli: int,
) -> int {
    let avg_milli = len_sum * 1000 / n_docs;
    let ratio_milli = if avg_milli == 0 {
        0
    } else {
        dl * 1000000 / avg_milli
    };
    let inner_milli = (1000 - b_milli) + b_milli * ratio_milli / 1000;
    let den_milli = tf * 1000 + k1_milli * inner_milli / 1000;
    let raw = tf * (1000 + k1_milli) * 1000 / den_milli;
    let capped = if raw > 1000 + k1_milli {
        1000 + k1_milli
    } else {
        raw
    };
    if capped < 1 {
        1
    } else {
        capped
    }
}

/// The term-frequency factor stays between one unit and `1000 + k1_milli`.
pub proof fn lemma_tf_factor_bounds(
    tf: int,
    n_docs: int,
    dl: int,
    len_sum: int,
    k1_milli: int,
    b_milli: int,
)
    requires
        0 <= k1_milli <= 1000000,
    ensures
        1 <= spec_tf_factor_milli(tf, n_docs, dl, len_sum, k1_milli, b_milli) <= 1001000,
{
}

/// The inverse-document-frequency factor at scale `IDF_UNIT`:
/// `1 + ln((n_docs + 1) / (df + 1))`, never below one whole point.
pub open spec fn spec_idf_fp(n_docs: int, df: int) -> int {
    let a = spec_ln_fp(n_docs + 1);
    let b = spec_ln_fp(df + 1);
    if b > a {
        IDF_UNIT as int
    } else {
        IDF_UNIT + a - b
    }
}

/// Within the supported corpus size a rarer term always gets the strictly
/// larger inverse-document-frequency factor.
pub proof fn lemma_idf_strict(n_docs: int, df1: int, df2: int)
    requires
        1 <= df1 < df2 <= n_docs <= 0xFFFF_FFFE,
    ensures
        spec_idf_fp(n_docs, df1) > spec_idf_fp(n_docs, df2),
{
    lemma_ln_fp_strict(df1 + 1, df2 + 1);
    lemma_ln_fp_monotone(df2 + 1, n_docs + 1);
}

/// The precomputed relevance contribution of one document for one term, in
/// `SCORE_SCALE` units per whole point: the term-frequency factor times the
/// inverse-document-frequency factor.
pub open spec fn spec_score(
    tf: int,
    n_docs: int,
    dl: int,
    len_sum: int,
    k1_milli: int,
    b_milli: int,
    df: int,
) -> int {
    spec_tf_factor_milli(tf, n_docs, dl, len_sum, k1_milli, b_milli) * spec_idf_fp(
        n_docs,
        df,
    )
}

/// A positive raw frequency always scores at least `IDF_UNIT`, so a document
/// holding the term never scores zero.
pub proof fn lemma_score_pos(
    tf: int,
    n_docs: int,
    dl: int,
    len_sum: int,
    k1_milli: int,
    b_milli: int,
    df: int,
)
    requires
        0 <= k1_milli <= 1000000,
    ensures
        spec_score(tf, n_docs, dl, len_sum, k1_milli, b_milli, df) >= IDF_UNIT,
{
    lemma_tf_factor_bounds(tf, n_docs, dl, len_sum, k1_milli, b_milli);
    let f = spec_tf_factor_milli(tf, n_docs, dl, len_sum, k1_milli, b_milli);
    let idf = spec_idf_fp(n_docs, df);
    assert(idf >= IDF_UNIT);
    assert(f * idf >= 1 * idf) by (nonlinear_arith)
        requires
            f >= 1,
            idf >= 0,
    ;
}

/// With everything else fixed, a term held by fewer documents scores
/// strictly higher — the engine keeps BM25's rarer-terms-count-more
/// discrimination throughout the supported corpus size.
pub proof fn lemma_score_strict_df(
    tf: int,
    n_docs: int,
    dl: int,
    len_sum: int,
    k1_milli: int,
    b_milli: int,
    df1: int,
    df2: int,
)
    requires
        0 <= k1_milli <= 1000000,
        1 <= df1 < df2 <= n_docs <= 0xFFFF_FFFE,
    ensures
        spec_score(tf, n_docs, dl, len_sum, k1_milli, b_milli, df1) > spec_score(
            tf,
            n_docs,
            dl,
            len_sum,
            k1_milli,
            b_milli,
            df2,
        ),
{
    lemma_tf_factor_bounds(tf, n_docs, dl, len_sum, k1_milli, b_milli);
    lemma_idf_strict(n_docs, df1, df2);
    let f = spec_tf_factor_milli(tf, n_docs, dl, len_sum, k1_milli, b_milli);
    let idf1 = spec_idf_fp(n_docs, df1);
    let idf2 = spec_idf_fp(n_docs, df2);
    assert(idf2 >= IDF_UNIT);
    assert(f * idf1 > f * idf2) by (nonlinear_arith)
        requires
            f >= 1,
            idf1 > idf2 >= 0,
    ;
}

/// Computes `spec_ln_fp` exactly.
pub fn ln_fp(x: u64) -> (r: u64)
    requires
        x >= 1,
    ensures
        r as int == spec_ln_fp(x as int),
        r <= 64 * LN2_FP,
{
    if x == 1 {
        return 0;
    }
    let e = log2_floor(x);
    let mut p: u64 = 1;
    let mut i: u64 = 0;
    proof {
        lemma2_to64();
    }
    while i < e
        invariant
            i <= e <= 63,
            p as int == pow2(i as nat),
        decreases e - i,
    {
        proof {
            lemma_pow2_unfold((i + 1) as nat);
            lemma2_to64();
            lemma2_to64_rest();
            if i + 1 < 63 {
                lemma_pow2_strictly_increases((i + 1) as nat, 63);
            }
        }
        p = p * 2;
        i = i + 1;
    }
    proof {
        lemma_log2_bracket(x as int);
    }
    let m: u64 = x - p;
    let frac_wide: u128 = (m as u128) * (LN2_FP as u128) / (p as u128);
    proof {
        assert((m as int) * (LN2_FP as int) < (p as int) * (LN2_FP as int)) by (nonlinear_arith)
            requires
                (m as int) < (p as int),
                LN2_FP > 0,
        ;
        assert((m as int) * (LN2_FP as int) >= 0) by (nonlinear_arith)
            requires
                m >= 0,
        ;
        lemma_multiply_divide_lt((m as int) * (LN2_FP as int), p as int, LN2_FP as int);
        lemma_div_pos_is_pos((m as int) * (LN2_FP as int), p as int);
        assert((e as int) * (LN2_FP as int) <= 63 * (LN2_FP as int)) by (nonlinear_arith)
            requires
                0 <= e as int <= 63,
        ;
    }
    let el: u64 = e * LN2_FP;
    el + (frac_wide as u64)
}

/// Computes `spec_score` exactly, in unsigned arithmetic.
pub fn score_of(tf: u32, n_docs: u64, dl: u32, len_sum: u64, k1_milli: u64, b_milli: u64, df: u64) -> (r: u64)
    requires
        tf >= 1,
        1 <= n_docs < u64::MAX,
        df >= 1,
        df < u64::MAX,
        k1_milli <= 1000000,
        b_milli <= 1000,
    ensures
        r as int == spec_score(
            tf as int,
            n_docs as int,
            dl as int,
            len_sum as int,
            k1_milli as int,
            b_milli as int,
            df as int,
        ),
        r <= 1001000 * (4294967296 + 64 * 2977044471),
{
    let avg_milli: u128 = (len_sum as u128) * 1000 / (n_docs as u128);
    proof {
        assert((len_sum as int) * 1000 / (n_docs as int) == avg_milli as int);
        assert(avg_milli as int >= 0);
    }
    let dl_micro: u64 = (dl as u64) * 1000000;
    assert(dl_micro <= 4294967295000000);
    let ratio_milli: u64 = if avg_milli == 0 {
        0
    } else {
        let q: u128 = (dl_micro as u128) / avg_milli;
        proof {
            assert(q <= dl_micro) by (nonlinear_arith)
                requires
                    q == (dl_micro as u128) / avg_milli,
                    avg_milli >= 1,
            ;
        }
        q as u64
    };
    assert(ratio_milli <= 4294967295000000);
    assert(b_milli * ratio_milli <= 1000 * 4294967295000000) by (nonlinear_arith)
        requires
            b_milli <= 1000,
            ratio_milli <= 4294967295000000,
    ;
    let inner_milli: u64 = (1000 - b_milli) + b_milli * ratio_milli / 1000;
    assert(inner_milli <= 4294967295001000);
    assert((k1_milli as u128) * (inner_milli as u128) <= 1000000 * 4294967295001000)
        by (nonlinear_arith)
        requires
            k1_milli <= 1000000,
            inner_milli <= 4294967295001000,
    ;
    let den_big: u128 = (k1_milli as u128) * (inner_milli as u128) / 1000;
    assert(den_big <= 1000000 * 4294967295001000 / 1000);
    let den_milli: u64 = (tf as u64) * 1000 + (den_big as u64);
    assert((tf as u64) * (1000 + k1_milli) <= 4294967295 * 1001000) by (nonlinear_arith)
        requires
            tf <= 4294967295,
            k1_milli <= 1000000,
    ;
    let num: u64 = (tf as u64) * (1000 + k1_milli) * 1000;
    assert(den_milli >= 1000);
    let raw: u64 = num / den_milli;
    let capped: u64 = if raw > 1000 + k1_milli {
        1000 + k1_milli
    } else {
        raw
    };
    let f_milli: u64 = if capped < 1 {
        1
    } else {
        capped
    };
    let a: u64 = ln_fp(n_docs + 1);
    let b: u64 = ln_fp(df + 1);
    let idf: u64 = if b > a {
        IDF_UNIT
    } else {
        IDF_UNIT + (a - b)
    };
    proof {
        assert(f_milli <= 1001000);
        assert(idf <= 4294967296 + 64 * 2977044471);
        assert(f_milli * idf <= 1001000 * (4294967296 + 64 * 2977044471)) by (nonlinear_arith)
            requires
                f_milli <= 1001000,
                idf <= 4294967296 + 64 * 2977044471,
        ;
    }
    f_milli * idf
}

/// Addition that stops at the largest representable score instead of wrapping.
pub open spec fn spec_add_clamp(a: int, b: int) -> int {
    if a + b > u64::MAX {
        u64::MAX as int
    } else {
        a + b
    }
}

/// Computes `spec_add_clamp` exactly.
pub fn add_clamp(a: u64, b: u64) -> (r: u64)
    ensures
        r as int == spec_add_clamp(a as int, b as int),
{
    if a > u64::MAX - b {
        u64::MAX
    } else {
        a + b
    }
}

} // verus!
