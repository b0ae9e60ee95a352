//! Scoring: cosine similarity in fixed point, lexical term overlap, and
//! their fused combination.
//!
//! Scores live in `[0, SCORE_ONE]`, a fixed-point image of `[0, 1]`. The
//! semantic half is the cosine of the query and chunk vectors, clamped to
//! that range; the lexical half is the fraction of query terms that occur in
//! the chunk's text; the fused score weighs them 7 to 3. The weighting is an
//! internal constant, not caller-configurable.

use vstd::prelude::*;

use crate::embed::bounded_vec;
use crate::order::bytes_equal;
use crate::text::{extract_terms, terms_of};

verus! {

/// Fixed-point one: a score of `SCORE_ONE` means 1.0.
pub const SCORE_ONE: u32 = 1000000;

/// Weight of the semantic half, out of ten.
pub const SEM_WEIGHT: u32 = 7;

/// Weight of the lexical half, out of ten.
pub const LEX_WEIGHT: u32 = 3;

/// Dot product of the first `n` components.
pub open spec fn dot_prefix(a: Seq<i32>, b: Seq<i32>, n: int) -> int
    decreases n,
{
    if n <= 0 {
        0
    } else {
        dot_prefix(a, b, n - 1) + a[n - 1] * b[n - 1]
    }
}

/// Dot product of two equal-length vectors.
pub open spec fn dot(a: Seq<i32>, b: Seq<i32>) -> int {
    dot_prefix(a, b, a.len() as int)
}

/// `r` is the integer square root of `n`.
pub open spec fn is_sqrt(n: int, r: int) -> bool {
    0 <= r && r * r <= n && n < (r + 1) * (r + 1)
}

/// The integer square root.
pub open spec fn int_sqrt(n: int) -> int {
    choose|r: int| is_sqrt(n, r)
}

/// The integer square root is unique.
pub proof fn lemma_sqrt_unique(n: int, r1: int, r2: int)
    requires
        is_sqrt(n, r1),
        is_sqrt(n, r2),
    ensures
        r1 == r2,
{
    if r1 < r2 {
        assert((r1 + 1) * (r1 + 1) <= r2 * r2) by (nonlinear_arith)
            requires
                0 <= r1,
                r1 + 1 <= r2,
        ;
    }
    if r2 < r1 {
        assert((r2 + 1) * (r2 + 1) <= r1 * r1) by (nonlinear_arith)
            requires
                0 <= r2,
                r2 + 1 <= r1,
        ;
    }
}

/// A bound on the dot product of bounded vectors.
pub proof fn lemma_dot_prefix_bound(a: Seq<i32>, b: Seq<i32>, n: int)
    requires
        0 <= n,
        bounded_vec(a),
        bounded_vec(b),
        n <= a.len(),
        n <= b.len(),
    ensures
        -(n * 100000000) <= dot_prefix(a, b, n) <= n * 100000000,
    decreases n,
{
    if n > 0 {
        lemma_dot_prefix_bound(a, b, n - 1);
        assert(-100000000 <= a[n - 1] * b[n - 1] <= 100000000) by (nonlinear_arith)
            requires
                -10000 <= a[n - 1] <= 10000,
                -10000 <= b[n - 1] <= 10000,
        ;
    }
}

/// The dot product of a bounded vector with itself is non-negative.
pub proof fn lemma_self_dot_nonneg(a: Seq<i32>, n: int)
    requires
        n <= a.len(),
    ensures
        dot_prefix(a, a, n) >= 0,
    decreases n,
{
    if n > 0 {
        lemma_self_dot_nonneg(a, n - 1);
        assert(a[n - 1] * a[n - 1] >= 0) by (nonlinear_arith);
    }
}

/// Dot product, in machine integers.
pub fn dot_i64(a: &Vec<i32>, b: &Vec<i32>) -> (r: i64)
    requires
        a@.len() == b@.len(),
        a@.len() <= 320,
        bounded_vec(a@),
        bounded_vec(b@),
    ensures
        r as int == dot(a@, b@),
        -32000000000i64 <= r <= 32000000000i64,
{
    proof {
        lemma_dot_prefix_bound(a@, b@, a@.len() as int);
    }
    let n = a.len();
    let mut acc: i64 = 0;
    let mut i: usize = 0;
    while i < n
        invariant
            i <= n,
            n == a@.len(),
            n == b@.len(),
            n <= 320,
            bounded_vec(a@),
            bounded_vec(b@),
            acc as int == dot_prefix(a@, b@, i as int),
            -(i * 100000000) <= acc as int <= i * 100000000,
        decreases n - i,
    {
        let x = a[i];
        let y = b[i];
        proof {
            assert(-100000000 <= x * y <= 100000000) by (nonlinear_arith)
                requires
                    -10000 <= x <= 10000,
                    -10000 <= y <= 10000,
            ;
        }
        acc = acc + (x as i64) * (y as i64);
        i = i + 1;
    }
    acc
}

/// Integer square root by bisection.
pub fn isqrt_u64(n: u64) -> (r: u64)
    ensures
        is_sqrt(n as int, r as int),
        r as int == int_sqrt(n as int),
{
    let mut lo: u64 = 0;
    let mut hi: u64 = 4294967296;
    proof {
        assert((4294967296int) * (4294967296int) > u64::MAX) by (nonlinear_arith);
    }
    while lo + 1 < hi
        invariant
            lo < hi <= 4294967296,
            (lo as int) * (lo as int) <= n as int,
            (n as int) < (hi as int) * (hi as int),
        decreases hi - lo,
    {
        let mid: u64 = lo + (hi - lo) / 2;
        proof {
            assert((mid as int) * (mid as int) < 18446744073709551616int) by (nonlinear_arith)
                requires
                    0 <= mid as int <= 4294967295int,
            ;
        }
        if mid * mid <= n {
            lo = mid;
        } else {
            hi = mid;
        }
    }
    proof {
        assert(is_sqrt(n as int, lo as int));
        lemma_sqrt_unique(n as int, lo as int, int_sqrt(n as int));
    }
    lo
}

/// Cosine similarity of `q` and `e`, clamped into `[0, SCORE_ONE]`.
pub open spec fn semantic_score(q: Seq<i32>, e: Seq<i32>) -> int {
    let d = dot(q, e);
    let den = int_sqrt(dot(q, q)) * int_sqrt(dot(e, e));
    if d <= 0 || den <= 0 {
        0
    } else if d * SCORE_ONE / den > SCORE_ONE {
        SCORE_ONE as int
    } else {
        d * SCORE_ONE / den
    }
}

/// Cosine similarity, executable.
pub fn semantic_score_u32(q: &Vec<i32>, e: &Vec<i32>) -> (r: u32)
    requires
        q@.len() == e@.len(),
        q@.len() <= 320,
        bounded_vec(q@),
        bounded_vec(e@),
    ensures
        r as int == semantic_score(q@, e@),
        r <= SCORE_ONE,
{
    let d = dot_i64(q, e);
    if d <= 0 {
        return 0;
    }
    let nq = dot_i64(q, q);
    let ne = dot_i64(e, e);
    proof {
        lemma_self_dot_nonneg(q@, q@.len() as int);
        lemma_self_dot_nonneg(e@, e@.len() as int);
    }
    let sq = isqrt_u64(nq as u64);
    let se = isqrt_u64(ne as u64);
    proof {
        assert(sq as int * sq as int <= nq as int) by {
            assert(is_sqrt(nq as int, sq as int));
        }
        assert((sq as int) <= 200000) by (nonlinear_arith)
            requires
                is_sqrt(nq as int, sq as int),
                nq as int <= 32000000000int,
        ;
        assert((se as int) <= 200000) by (nonlinear_arith)
            requires
                is_sqrt(ne as int, se as int),
                ne as int <= 32000000000int,
        ;
        assert((sq as int) * (se as int) <= 40000000000int) by (nonlinear_arith)
            requires
                0 <= sq as int <= 200000,
                0 <= se as int <= 200000,
        ;
    }
    let den: u64 = sq * se;
    if den == 0 {
        return 0;
    }
    let num: i64 = d * (SCORE_ONE as i64);
    let val: i64 = num / (den as i64);
    proof {
        assert(val as int == dot(q@, e@) * SCORE_ONE / (int_sqrt(dot(q@, q@)) * int_sqrt(
            dot(e@, e@),
        )));
        assert(val >= 0);
    }
    if val > SCORE_ONE as i64 {
        SCORE_ONE
    } else {
        val as u32
    }
}

/// Whether `ts` holds the term `t`.
pub open spec fn contains_term(ts: Seq<Seq<u8>>, t: Seq<u8>) -> bool {
    exists|k: int| 0 <= k < ts.len() && ts[k] == t
}

/// How many of the first `n` query terms occur in the content's terms.
pub open spec fn overlap_prefix(qt: Seq<Seq<u8>>, ct: Seq<Seq<u8>>, n: int) -> int
    decreases n,
{
    if n <= 0 {
        0
    } else {
        overlap_prefix(qt, ct, n - 1) + if contains_term(ct, qt[n - 1]) {
            1int
        } else {
            0int
        }
    }
}

/// The overlap never exceeds the number of query terms.
pub proof fn lemma_overlap_bound(qt: Seq<Seq<u8>>, ct: Seq<Seq<u8>>, n: int)
    ensures
        0 <= overlap_prefix(qt, ct, n),
        overlap_prefix(qt, ct, n) <= if n >= 0 {
            n
        } else {
            0
        },
    decreases n,
{
    if n > 0 {
        lemma_overlap_bound(qt, ct, n - 1);
    }
}

/// Share of query terms found in the content, in `[0, SCORE_ONE]`.
pub open spec fn lexical_score(qt: Seq<Seq<u8>>, content: Seq<u8>) -> int {
    if qt.len() == 0 {
        0
    } else {
        overlap_prefix(qt, terms_of(content), qt.len() as int) * SCORE_ONE / qt.len() as int
    }
}

/// Whether the term `t` occurs in `ts`.
fn term_in(ts: &Vec<Vec<u8>>, t: &Vec<u8>) -> (r: bool)
    ensures
        r == contains_term(ts@.map_values(|x: Vec<u8>| x@), t@),
{
    let ghost tsm = ts@.map_values(|x: Vec<u8>| x@);
    let mut k: usize = 0;
    while k < ts.len()
        invariant
            k <= ts@.len(),
            tsm == ts@.map_values(|x: Vec<u8>| x@),
            forall|j: int| 0 <= j < k ==> tsm[j] != t@,
        decreases ts@.len() - k,
    {
        if bytes_equal(ts[k].as_slice(), t.as_slice()) {
            proof {
                assert(tsm[k as int] == t@);
            }
            return true;
        }
        k = k + 1;
    }
    false
}

/// Lexical score, executable: `qterms` are the query's terms, extracted
/// once; the content's terms are extracted here.
pub fn lexical_score_u32(qterms: &Vec<Vec<u8>>, content: &[u8]) -> (r: u32)
    requires
        qterms@.len() > 0,
    ensures
        r as int == lexical_score(qterms@.map_values(|x: Vec<u8>| x@), content@),
        r <= SCORE_ONE,
{
    let ghost qtm = qterms@.map_values(|x: Vec<u8>| x@);
    let cterms = extract_terms(content);
    proof {
        assert(cterms@.map_values(|x: Vec<u8>| x@) =~= terms_of(content@));
        lemma_overlap_bound(qtm, terms_of(content@), qtm.len() as int);
    }
    let n = qterms.len();
    let mut hits: usize = 0;
    let mut i: usize = 0;
    while i < n
        invariant
            i <= n,
            n == qterms@.len(),
            qtm == qterms@.map_values(|x: Vec<u8>| x@),
            cterms@.map_values(|x: Vec<u8>| x@) == terms_of(content@),
            hits as int == overlap_prefix(qtm, terms_of(content@), i as int),
            hits <= i,
        decreases n - i,
    {
        if term_in(&cterms, &qterms[i]) {
            hits = hits + 1;
        }
        i = i + 1;
    }
    proof {
        lemma_overlap_bound(qtm, terms_of(content@), n as int);
        assert(hits as int * SCORE_ONE <= n as int * SCORE_ONE) by (nonlinear_arith)
            requires
                0 <= hits as int <= n as int,
        ;
        assert(hits as int * SCORE_ONE / n as int <= SCORE_ONE) by (nonlinear_arith)
            requires
                n as int > 0,
                hits as int * SCORE_ONE <= n as int * SCORE_ONE,
        ;
    }
    let r: u128 = (hits as u128) * (SCORE_ONE as u128) / (n as u128);
    r as u32
}

/// The fused score: semantic and lexical halves under the fixed weighting.
pub open spec fn fused(sem: int, lex: int) -> int {
    (SEM_WEIGHT * sem + LEX_WEIGHT * lex) / 10
}

/// The fused score of a chunk's embedding and content against a query.
pub open spec fn chunk_score(qe: Seq<i32>, qt: Seq<Seq<u8>>, e: Seq<i32>, content: Seq<u8>) -> int {
    fused(semantic_score(qe, e), lexical_score(qt, content))
}

/// Fuse two component scores.
pub fn fused_u32(sem: u32, lex: u32) -> (r: u32)
    requires
        sem <= SCORE_ONE,
        lex <= SCORE_ONE,
    ensures
        r as int == fused(sem as int, lex as int),
        r <= SCORE_ONE,
{
    let wide: u64 = (SEM_WEIGHT as u64) * (sem as u64) + (LEX_WEIGHT as u64) * (lex as u64);
    let r: u64 = wide / 10;
    r as u32
}

/// A fused chunk score always lies in the unit range `[0, SCORE_ONE]`.
pub proof fn lemma_chunk_score_bounds(qe: Seq<i32>, qt: Seq<Seq<u8>>, e: Seq<i32>, content: Seq<u8>)
    ensures
        0 <= chunk_score(qe, qt, e, content) <= SCORE_ONE,
{
    let d = dot(qe, e);
    let den = int_sqrt(dot(qe, qe)) * int_sqrt(dot(e, e));
    let sem = semantic_score(qe, e);
    assert(0 <= sem <= SCORE_ONE) by {
        if d > 0 && den > 0 {
            assert(d * SCORE_ONE >= 0) by (nonlinear_arith)
                requires
                    d > 0,
            ;
            assert(d * SCORE_ONE / den >= 0) by (nonlinear_arith)
                requires
                    d * SCORE_ONE >= 0,
                    den > 0,
            ;
        }
    }
    let lex = lexical_score(qt, content);
    assert(0 <= lex <= SCORE_ONE) by {
        if qt.len() > 0 {
            let n = qt.len() as int;
            let ov = overlap_prefix(qt, terms_of(content), n);
            lemma_overlap_bound(qt, terms_of(content), n);
            assert(ov * SCORE_ONE >= 0) by (nonlinear_arith)
                requires
                    ov >= 0,
            ;
            assert(ov * SCORE_ONE / n >= 0) by (nonlinear_arith)
                requires
                    ov * SCORE_ONE >= 0,
                    n > 0,
            ;
            assert(ov * SCORE_ONE <= n * SCORE_ONE) by (nonlinear_arith)
                requires
                    0 <= ov <= n,
            ;
            assert(ov * SCORE_ONE / n <= SCORE_ONE) by (nonlinear_arith)
                requires
                    n > 0,
                    ov * SCORE_ONE <= n * SCORE_ONE,
            ;
        }
    }
    assert(0 <= fused(sem, lex) <= SCORE_ONE);
}

} // verus!

