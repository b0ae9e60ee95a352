//! The embedding provider: maps text to a fixed-dimension integer vector.
//!
//! Each tier hashes the text's terms into a signed-count vector of its own
//! dimension and seed, so vectors from different tiers are never comparable.
//! The hybrid tier runs the balanced and the code tier over the same text and
//! concatenates their outputs; that fixed strategy decides which stored
//! vectors are comparable. Embedding is a pure function of the bytes and the
//! tier: the same text always embeds to the same vector. Input with no terms
//! is unencodable and is rejected, never embedded.

use vstd::prelude::*;

use crate::fingerprint::{fnv1a, fnv64, FNV_OFFSET};
use crate::text::{extract_terms, terms_of};

verus! {

/// The embedding tiers: three single-model speed/quality tiers, and the
/// hybrid fusion of the balanced and the code tier.
#[derive(Clone, Copy, Debug, PartialEq, Eq, Structural)]
pub enum EmbedMode {
    Fast,
    Balanced,
    Code,
    Hybrid,
}

/// Dimension of the fast tier.
pub const DIM_FAST: usize = 64;

/// Dimension of the balanced tier.
pub const DIM_BALANCED: usize = 128;

/// Dimension of the code tier.
pub const DIM_CODE: usize = 192;

/// Dimension of the hybrid tier: balanced and code concatenated.
pub const DIM_HYBRID: usize = 320;

/// Magnitude bound kept on every vector component.
pub const COMP_LIMIT: i32 = 10000;

/// Hash seed of the fast tier.
pub const SEED_FAST: u64 = FNV_OFFSET ^ 1;

/// Hash seed of the balanced tier.
pub const SEED_BALANCED: u64 = FNV_OFFSET ^ 2;

/// Hash seed of the code tier.
pub const SEED_CODE: u64 = FNV_OFFSET ^ 3;

/// Vector dimension of a tier.
pub open spec fn mode_dim(m: EmbedMode) -> int {
    match m {
        EmbedMode::Fast => DIM_FAST as int,
        EmbedMode::Balanced => DIM_BALANCED as int,
        EmbedMode::Code => DIM_CODE as int,
        EmbedMode::Hybrid => DIM_HYBRID as int,
    }
}

/// The all-zero vector of dimension `dim`.
pub open spec fn zero_vec(dim: int) -> Seq<i32> {
    Seq::new(dim as nat, |i: int| 0i32)
}

/// Increment with saturation at `COMP_LIMIT`.
pub open spec fn sat_inc(c: i32) -> i32 {
    if c < COMP_LIMIT {
        (c + 1) as i32
    } else {
        c
    }
}

/// Decrement with saturation at `-COMP_LIMIT`.
pub open spec fn sat_dec(c: i32) -> i32 {
    if c > -10000 {
        (c - 1) as i32
    } else {
        c
    }
}

/// Slot a term falls into, for vectors of length `dim`.
pub open spec fn term_slot(t: Seq<u8>, seed: u64, dim: int) -> int {
    fnv1a(t, seed) as int % dim
}

/// Whether a term counts positively in its slot.
pub open spec fn term_positive(t: Seq<u8>, seed: u64, dim: int) -> bool {
    (fnv1a(t, seed) as int / dim) % 2 == 0
}

/// One term folded into a vector.
pub open spec fn apply_term(v: Seq<i32>, t: Seq<u8>, seed: u64) -> Seq<i32> {
    let idx = term_slot(t, seed, v.len() as int);
    if term_positive(t, seed, v.len() as int) {
        v.update(idx, sat_inc(v[idx]))
    } else {
        v.update(idx, sat_dec(v[idx]))
    }
}

/// A term sequence folded into a vector, left to right.
pub open spec fn apply_terms(v: Seq<i32>, ts: Seq<Seq<u8>>, seed: u64) -> Seq<i32>
    decreases ts.len(),
{
    if ts.len() == 0 {
        v
    } else {
        apply_terms(apply_term(v, ts[0], seed), ts.skip(1), seed)
    }
}

/// The single-tier embedding of byte content `s`.
#[verifier::opaque]
pub open spec fn single_embedding(s: Seq<u8>, seed: u64, dim: int) -> Seq<i32> {
    apply_terms(zero_vec(dim), terms_of(s), seed)
}

/// The embedding of `s` under tier `m`; hybrid concatenates balanced and code.
pub open spec fn embedding_of(s: Seq<u8>, m: EmbedMode) -> Seq<i32> {
    match m {
        EmbedMode::Fast => single_embedding(s, SEED_FAST, DIM_FAST as int),
        EmbedMode::Balanced => single_embedding(s, SEED_BALANCED, DIM_BALANCED as int),
        EmbedMode::Code => single_embedding(s, SEED_CODE, DIM_CODE as int),
        EmbedMode::Hybrid => single_embedding(s, SEED_BALANCED, DIM_BALANCED as int).add(
            single_embedding(s, SEED_CODE, DIM_CODE as int),
        ),
    }
}

/// A vector with every component within the magnitude bound.
pub open spec fn bounded_vec(v: Seq<i32>) -> bool {
    forall|i: int| 0 <= i < v.len() ==> -10000 <= #[trigger] v[i] <= 10000
}

/// Folding terms preserves length and the component bound.
pub proof fn lemma_apply_terms_bounded(v: Seq<i32>, ts: Seq<Seq<u8>>, seed: u64)
    requires
        v.len() > 0,
        bounded_vec(v),
    ensures
        apply_terms(v, ts, seed).len() == v.len(),
        bounded_vec(apply_terms(v, ts, seed)),
    decreases ts.len(),
{
    if ts.len() > 0 {
        let idx = term_slot(ts[0], seed, v.len() as int);
        assert(0 <= idx < v.len()) by {
            assert(fnv1a(ts[0], seed) as int >= 0);
        }
        let v2 = apply_term(v, ts[0], seed);
        assert(bounded_vec(v2)) by {
            assert(forall|i: int|
                0 <= i < v2.len() && i != idx ==> #[trigger] v2[i] == v[i]);
        }
        lemma_apply_terms_bounded(v2, ts.skip(1), seed);
    }
}

/// An embedding has its tier's dimension and bounded components.
pub proof fn lemma_embedding_bounded(s: Seq<u8>, m: EmbedMode)
    ensures
        embedding_of(s, m).len() == mode_dim(m),
        bounded_vec(embedding_of(s, m)),
{
    reveal(single_embedding);
    lemma_apply_terms_bounded(zero_vec(DIM_FAST as int), terms_of(s), SEED_FAST);
    lemma_apply_terms_bounded(zero_vec(DIM_BALANCED as int), terms_of(s), SEED_BALANCED);
    lemma_apply_terms_bounded(zero_vec(DIM_CODE as int), terms_of(s), SEED_CODE);
    if m is Hybrid {
        let a = single_embedding(s, SEED_BALANCED, DIM_BALANCED as int);
        let b = single_embedding(s, SEED_CODE, DIM_CODE as int);
        assert forall|i: int|
            0 <= i < a.add(b).len() implies -10000 <= #[trigger] a.add(b)[i] <= 10000 by {
            if i < a.len() {
                assert(a.add(b)[i] == a[i]);
            } else {
                assert(a.add(b)[i] == b[i - a.len()]);
            }
        }
    }
}

/// Why an embedding request failed.
#[derive(Clone, Copy, Debug, PartialEq, Eq, Structural)]
pub enum EmbedError {
    /// Reserved for an embedding backend that fails to initialize. The
    /// built-in deterministic tiers have no backend to load, so no
    /// function of this crate returns this variant; a caller swapping in
    /// a loadable model keeps a stable error surface.
    ModelLoad,
    /// The input holds no terms, so there is nothing to encode.
    Unencodable,
}

/// Vector dimension of a tier.
pub fn embed_dim(m: EmbedMode) -> (d: usize)
    ensures
        d as int == mode_dim(m),
        d > 0,
{
    match m {
        EmbedMode::Fast => DIM_FAST,
        EmbedMode::Balanced => DIM_BALANCED,
        EmbedMode::Code => DIM_CODE,
        EmbedMode::Hybrid => DIM_HYBRID,
    }
}

/// Fold one term into the vector.
fn apply_one(v: &mut Vec<i32>, t: &Vec<u8>, seed: u64) -> (nothing: ())
    requires
        old(v)@.len() > 0,
    ensures
        final(v)@ == apply_term(old(v)@, t@, seed),
{
    let dim: usize = v.len();
    let h = fnv64(t.as_slice(), seed);
    let idx: usize = (h % (dim as u64)) as usize;
    let positive: bool = ((h / (dim as u64)) % 2) == 0;
    proof {
        assert(idx as int == term_slot(t@, seed, v@.len() as int));
        assert(positive == term_positive(t@, seed, v@.len() as int));
    }
    let c = v[idx];
    if positive {
        if c < COMP_LIMIT {
            v[idx] = c + 1;
        }
    } else {
        if c > -10000 {
            v[idx] = c - 1;
        }
    }
    proof {
        assert(v@ =~= apply_term(old(v)@, t@, seed));
    }
}

/// Fold every term into a fresh vector of dimension `dim` under `seed`.
fn apply_all(terms: &Vec<Vec<u8>>, seed: u64, dim: usize) -> (r: Vec<i32>)
    requires
        dim > 0,
    ensures
        r@ == apply_terms(zero_vec(dim as int), terms@.map_values(|t: Vec<u8>| t@), seed),
{
    let ghost ts = terms@.map_values(|t: Vec<u8>| t@);
    let mut v: Vec<i32> = Vec::new();
    let mut k: usize = 0;
    while k < dim
        invariant
            k <= dim,
            v@.len() == k,
            forall|i: int| 0 <= i < k ==> #[trigger] v@[i] == 0i32,
        decreases dim - k,
    {
        v.push(0i32);
        k = k + 1;
    }
    proof {
        assert(v@ =~= zero_vec(dim as int));
        assert(ts.skip(0) =~= ts);
    }
    let mut i: usize = 0;
    while i < terms.len()
        invariant
            dim > 0,
            i <= terms@.len(),
            ts == terms@.map_values(|t: Vec<u8>| t@),
            v@.len() == dim,
            apply_terms(zero_vec(dim as int), ts, seed) == apply_terms(v@, ts.skip(i as int), seed),
        decreases terms@.len() - i,
    {
        proof {
            assert(ts.skip(i as int)[0] == terms@[i as int]@);
            assert(ts.skip(i as int).skip(1) =~= ts.skip(i + 1));
        }
        apply_one(&mut v, &terms[i], seed);
        i = i + 1;
    }
    proof {
        assert(ts.skip(terms@.len() as int) =~= Seq::<Seq<u8>>::empty());
    }
    v
}

/// Embed `content` under tier `mode`.
///
/// Succeeds exactly when the content holds at least one term; the result is
/// then the tier's embedding, of the tier's dimension. Content without terms
/// is unencodable.
pub fn embed_bytes(content: &[u8], mode: EmbedMode) -> (r: Result<Vec<i32>, EmbedError>)
    ensures
        r is Ok <==> terms_of(content@).len() > 0,
        r is Ok ==> r->Ok_0@ == embedding_of(content@, mode) && r->Ok_0@.len() == mode_dim(mode)
            && bounded_vec(r->Ok_0@),
        r is Err ==> r->Err_0 == EmbedError::Unencodable,
{
    let terms = extract_terms(content);
    if terms.len() == 0 {
        return Err(EmbedError::Unencodable);
    }
    proof {
        reveal(single_embedding);
        assert(terms@.map_values(|t: Vec<u8>| t@) =~= terms_of(content@));
        lemma_embedding_bounded(content@, mode);
    }
    match mode {
        EmbedMode::Fast => Ok(apply_all(&terms, SEED_FAST, DIM_FAST)),
        EmbedMode::Balanced => Ok(apply_all(&terms, SEED_BALANCED, DIM_BALANCED)),
        EmbedMode::Code => Ok(apply_all(&terms, SEED_CODE, DIM_CODE)),
        EmbedMode::Hybrid => {
            let mut a = apply_all(&terms, SEED_BALANCED, DIM_BALANCED);
            let mut b = apply_all(&terms, SEED_CODE, DIM_CODE);
            let ghost av = a@;
            let ghost bv = b@;
            let mut j: usize = 0;
            while j < b.len()
                invariant
                    j <= bv.len(),
                    b@ == bv,
                    a@ =~= av.add(bv.take(j as int)),
                decreases bv.len() - j,
            {
                let x = b[j];
                a.push(x);
                proof {
                    assert(av.add(bv.take(j as int)).push(bv[j as int]) =~= av.add(
                        bv.take(j + 1),
                    ));
                }
                j = j + 1;
            }
            proof {
                assert(bv.take(bv.len() as int) =~= bv);
            }
            Ok(a)
        },
    }
}

} // verus!
