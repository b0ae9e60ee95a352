//! The hybrid searcher: rank stored chunks against a query.
//!
//! Every stored chunk inside the path scope is scored by the fused semantic
//! and lexical score, results are sorted by strictly non-increasing score
//! with a deterministic tie-break (path bytes, then start line),
//! near-identical overlapping chunks of one file within a small score
//! epsilon are collapsed onto the highest-scoring one, and the list is cut
//! to `min(requested, MAX_RESULTS)`. An empty store is the explicit "not
//! indexed" signal, never an empty success.

use vstd::prelude::*;

use crate::embed::{bounded_vec, mode_dim};
use crate::order::{bytes_equal, bytes_less, bytes_lt, lemma_bytes_lt_total, lemma_bytes_lt_trans};
use crate::score::{chunk_score, fused_u32, lexical_score_u32, semantic_score_u32};
use crate::store::{ChunkModel, VectorStore};
use crate::text::{extract_terms, terms_of};

verus! {

/// Hard ceiling on the number of results, independent of the request.
pub const MAX_RESULTS: usize = 50;

/// Two results of one file whose ranges overlap and whose scores differ by
/// at most this much are near-identical; only the best is kept.
pub const DEDUP_EPSILON: u32 = 20000;

/// One ranked hit: a chunk reference plus its fused score.
#[derive(Debug)]
pub struct SearchResult {
    pub path: Vec<u8>,
    pub start_line: usize,
    pub end_line: usize,
    pub content: Vec<u8>,
    /// Fused score in `[0, SCORE_ONE]`.
    pub score: u32,
}

/// Mathematical value of a `SearchResult`.
pub ghost struct SearchResultModel {
    pub path: Seq<u8>,
    pub start_line: int,
    pub end_line: int,
    pub content: Seq<u8>,
    pub score: u32,
}

impl View for SearchResult {
    type V = SearchResultModel;

    open spec fn view(&self) -> SearchResultModel {
        SearchResultModel {
            path: self.path@,
            start_line: self.start_line as int,
            end_line: self.end_line as int,
            content: self.content@,
            score: self.score,
        }
    }
}

/// Why a query produced no result list.
#[derive(Clone, Copy, Debug, PartialEq, Eq, Structural)]
pub enum SearchError {
    /// The store holds nothing: not indexed yet, distinct from zero matches.
    NotIndexed,
    /// The query has no terms.
    EmptyQuery,
    /// The query vector does not have the store's dimension.
    DimensionMismatch,
}

/// `pre` is a byte prefix of `s`.
pub open spec fn is_prefix(pre: Seq<u8>, s: Seq<u8>) -> bool {
    pre.len() <= s.len() && s.take(pre.len() as int) == pre
}

/// The chunk lies inside the requested path scope (empty scope: no filter).
pub open spec fn in_scope(c: ChunkModel, scope: Seq<u8>) -> bool {
    is_prefix(scope, c.path)
}

/// The fused score of chunk `c` for this query.
pub open spec fn score_of(qe: Seq<i32>, qt: Seq<Seq<u8>>, c: ChunkModel) -> int {
    chunk_score(qe, qt, c.embedding, c.content)
}

/// `r` reports chunk `c` with its true score.
pub open spec fn represents(
    r: SearchResultModel,
    c: ChunkModel,
    qe: Seq<i32>,
    qt: Seq<Seq<u8>>,
) -> bool {
    &&& r.path == c.path
    &&& r.start_line == c.start_line
    &&& r.end_line == c.end_line
    &&& r.content == c.content
    &&& r.score as int == score_of(qe, qt, c)
}

/// `r` reports some in-scope chunk of `chunks` with its true score.
pub open spec fn hit_of_store(
    r: SearchResultModel,
    chunks: Seq<ChunkModel>,
    scope: Seq<u8>,
    qe: Seq<i32>,
    qt: Seq<Seq<u8>>,
) -> bool {
    exists|t: int|
        0 <= t < chunks.len() && in_scope(#[trigger] chunks[t], scope) && represents(
            r,
            chunks[t],
            qe,
            qt,
        )
}

/// Some result of `rs` reports chunk `c` with its true score.
pub open spec fn reported(
    rs: Seq<SearchResultModel>,
    c: ChunkModel,
    qe: Seq<i32>,
    qt: Seq<Seq<u8>>,
) -> bool {
    exists|i: int| 0 <= i < rs.len() && represents(#[trigger] rs[i], c, qe, qt)
}

/// The value `v` occurs in `rs`.
pub open spec fn value_in(rs: Seq<SearchResultModel>, v: SearchResultModel) -> bool {
    exists|i: int| 0 <= i < rs.len() && #[trigger] rs[i] == v
}

/// The value `v` occurs among the first `n` entries of `rs`.
pub open spec fn value_in_prefix(rs: Seq<SearchResultModel>, n: int, v: SearchResultModel) -> bool {
    exists|i: int| 0 <= i < n && i < rs.len() && #[trigger] rs[i] == v
}

/// `a` may stand before `b`: higher score first, ties broken by path bytes,
/// then by start line.
pub open spec fn ordered_pair(a: SearchResultModel, b: SearchResultModel) -> bool {
    ||| a.score > b.score
    ||| (a.score == b.score && bytes_lt(a.path, b.path))
    ||| (a.score == b.score && a.path == b.path && a.start_line <= b.start_line)
}

/// The result list is sorted: non-increasing score, deterministic tie-break.
pub open spec fn results_sorted(rs: Seq<SearchResultModel>) -> bool {
    forall|i: int, j: int| 0 <= i < j < rs.len() ==> ordered_pair(#[trigger] rs[i], #[trigger] rs[j])
}

/// The better-ranked `hi` makes `lo` a near-duplicate: same file,
/// overlapping line ranges, score within the epsilon.
pub open spec fn near_dup(hi: SearchResultModel, lo: SearchResultModel) -> bool {
    &&& hi.path == lo.path
    &&& hi.start_line <= lo.end_line
    &&& lo.start_line <= hi.end_line
    &&& hi.score >= lo.score
    &&& hi.score - lo.score <= DEDUP_EPSILON
}

/// Some result of `rs` makes `v` a near-duplicate.
pub open spec fn dup_covered(rs: Seq<SearchResultModel>, v: SearchResultModel) -> bool {
    exists|i: int| 0 <= i < rs.len() && near_dup(#[trigger] rs[i], v)
}

/// Some result of `rs` accounts for chunk `c` of score `s`: same file,
/// overlapping range, at least as good a score, within the epsilon.
pub open spec fn covered(rs: Seq<SearchResultModel>, c: ChunkModel, s: int) -> bool {
    exists|i: int|
        0 <= i < rs.len() && (#[trigger] rs[i]).path == c.path && rs[i].start_line <= c.end_line
            && c.start_line <= rs[i].end_line && s <= rs[i].score && rs[i].score - DEDUP_EPSILON
            <= s
}

/// The order is total.
pub proof fn lemma_ordered_total(a: SearchResultModel, b: SearchResultModel)
    ensures
        ordered_pair(a, b) || ordered_pair(b, a),
{
    lemma_bytes_lt_total(a.path, b.path);
}

/// The order is transitive.
pub proof fn lemma_ordered_trans(a: SearchResultModel, b: SearchResultModel, c: SearchResultModel)
    requires
        ordered_pair(a, b),
        ordered_pair(b, c),
    ensures
        ordered_pair(a, c),
{
    if a.score == b.score && b.score == c.score {
        if bytes_lt(a.path, b.path) && bytes_lt(b.path, c.path) {
            lemma_bytes_lt_trans(a.path, b.path, c.path);
        }
    }
}

/// Whether `pre` is a byte prefix of `s`.
pub fn prefix_of(pre: &[u8], s: &[u8]) -> (r: bool)
    ensures
        r == is_prefix(pre@, s@),
{
    if pre.len() > s.len() {
        return false;
    }
    let mut i: usize = 0;
    while i < pre.len()
        invariant
            pre@.len() <= s@.len(),
            i <= pre@.len(),
            forall|k: int| 0 <= k < i ==> pre@[k] == s@[k],
        decreases pre@.len() - i,
    {
        if pre[i] != s[i] {
            proof {
                assert(s@.take(pre@.len() as int)[i as int] == s@[i as int]);
            }
            return false;
        }
        i = i + 1;
    }
    proof {
        assert(s@.take(pre@.len() as int) =~= pre@);
    }
    true
}

/// Whether `a` may stand before `b` in the output.
fn ranks_before(a: &SearchResult, b: &SearchResult) -> (r: bool)
    ensures
        r == ordered_pair(a@, b@),
{
    if a.score > b.score {
        true
    } else if a.score < b.score {
        false
    } else if bytes_less(a.path.as_slice(), b.path.as_slice()) {
        true
    } else if bytes_equal(a.path.as_slice(), b.path.as_slice()) {
        a.start_line <= b.start_line
    } else {
        false
    }
}

/// A value-equal copy of a result.
fn copy_result(r: &SearchResult) -> (out: SearchResult)
    ensures
        out@ == r@,
{
    SearchResult {
        path: vstd::slice::slice_to_vec(r.path.as_slice()),
        start_line: r.start_line,
        end_line: r.end_line,
        content: vstd::slice::slice_to_vec(r.content.as_slice()),
        score: r.score,
    }
}

/// Score every chunk of the store that lies in scope.
#[verifier::rlimit(60)]
fn collect_candidates(
    store: &VectorStore,
    qe: &Vec<i32>,
    qterms: &Vec<Vec<u8>>,
    scope: &[u8],
) -> (out: Vec<SearchResult>)
    requires
        store.wf(),
        qe@.len() == mode_dim(store@.meta.mode),
        bounded_vec(qe@),
        qterms@.len() > 0,
    ensures
        forall|i: int|
            0 <= i < out@.len() ==> hit_of_store(
                (#[trigger] out@[i])@,
                store@.chunks,
                scope@,
                qe@,
                qterms@.map_values(|x: Vec<u8>| x@),
            ),
        forall|t: int|
            0 <= t < store@.chunks.len() && in_scope(#[trigger] store@.chunks[t], scope@)
                ==> reported(
                out@.map_values(|r: SearchResult| r@),
                store@.chunks[t],
                qe@,
                qterms@.map_values(|x: Vec<u8>| x@),
            ),
{
    let ghost qtm = qterms@.map_values(|x: Vec<u8>| x@);
    let mut out: Vec<SearchResult> = Vec::new();
    let n = store.chunk_count();
    let mut t: usize = 0;
    while t < n
        invariant
            store.wf(),
            t <= n,
            n == store@.chunks.len(),
            qe@.len() == mode_dim(store@.meta.mode),
            bounded_vec(qe@),
            qterms@.len() > 0,
            qtm == qterms@.map_values(|x: Vec<u8>| x@),
            forall|i: int|
                0 <= i < out@.len() ==> hit_of_store(
                    (#[trigger] out@[i])@,
                    store@.chunks,
                    scope@,
                    qe@,
                    qtm,
                ),
            forall|u: int|
                0 <= u < t && in_scope(#[trigger] store@.chunks[u], scope@) ==> reported(
                    out@.map_values(|r: SearchResult| r@),
                    store@.chunks[u],
                    qe@,
                    qtm,
                ),
        decreases n - t,
    {
        let c = store.chunk_ref(t);
        if prefix_of(scope, c.path.as_slice()) {
            proof {
                assert(mode_dim(store@.meta.mode) <= 320);
                assert(crate::store::wf_chunk(store@.chunks[t as int], mode_dim(store@.meta.mode)));
            }
            let sem = semantic_score_u32(qe, &c.embedding);
            let lex = lexical_score_u32(qterms, c.content.as_slice());
            let score = fused_u32(sem, lex);
            let ghost oldm = out@.map_values(|r: SearchResult| r@);
            out.push(
                SearchResult {
                    path: vstd::slice::slice_to_vec(c.path.as_slice()),
                    start_line: c.start_line,
                    end_line: c.end_line,
                    content: vstd::slice::slice_to_vec(c.content.as_slice()),
                    score,
                },
            );
            proof {
                let newm = out@.map_values(|r: SearchResult| r@);
                let ln = oldm.len() as int;
                assert(newm =~= oldm.push(out@[ln]@));
                assert(represents(newm[ln], store@.chunks[t as int], qe@, qtm));
                assert forall|i: int| 0 <= i < out@.len() implies hit_of_store(
                    (#[trigger] out@[i])@,
                    store@.chunks,
                    scope@,
                    qe@,
                    qtm,
                ) by {
                    if i < ln {
                        assert(out@[i]@ == oldm[i]);
                    } else {
                        assert(in_scope(store@.chunks[t as int], scope@) && represents(
                            out@[i]@,
                            store@.chunks[t as int],
                            qe@,
                            qtm,
                        ));
                    }
                }
                assert forall|u: int|
                    0 <= u < t + 1 && in_scope(#[trigger] store@.chunks[u], scope@) implies reported(
                    newm,
                    store@.chunks[u],
                    qe@,
                    qtm,
                ) by {
                    if u < t {
                        let i = choose|i: int|
                            0 <= i < oldm.len() && represents(
                                #[trigger] oldm[i],
                                store@.chunks[u],
                                qe@,
                                qtm,
                            );
                        assert(represents(newm[i], store@.chunks[u], qe@, qtm));
                    } else {
                        assert(represents(newm[ln], store@.chunks[u], qe@, qtm));
                    }
                }
            }
        }
        t = t + 1;
    }
    out
}

/// Sort results: non-increasing score, ties by path bytes then start line.
#[verifier::rlimit(60)]
fn sort_results(input: &Vec<SearchResult>) -> (out: Vec<SearchResult>)
    ensures
        results_sorted(out@.map_values(|r: SearchResult| r@)),
        out@.len() == input@.len(),
        forall|i: int|
            0 <= i < out@.len() ==> value_in(
                input@.map_values(|r: SearchResult| r@),
                (#[trigger] out@[i])@,
            ),
        forall|j: int|
            0 <= j < input@.len() ==> value_in(
                out@.map_values(|r: SearchResult| r@),
                (#[trigger] input@[j])@,
            ),
{
    let ghost im = input@.map_values(|r: SearchResult| r@);
    let mut out: Vec<SearchResult> = Vec::new();
    let n = input.len();
    let mut j: usize = 0;
    while j < n
        invariant
            j <= n,
            n == input@.len(),
            im == input@.map_values(|r: SearchResult| r@),
            out@.len() == j,
            results_sorted(out@.map_values(|r: SearchResult| r@)),
            forall|i: int| 0 <= i < out@.len() ==> value_in(im, (#[trigger] out@[i])@),
            forall|t: int|
                0 <= t < j ==> value_in(
                    out@.map_values(|r: SearchResult| r@),
                    (#[trigger] input@[t])@,
                ),
        decreases n - j,
    {
        let x = copy_result(&input[j]);
        let ghost oldout = out@;
        let ghost om = out@.map_values(|r: SearchResult| r@);
        let mut pos: usize = 0;
        while pos < out.len() && ranks_before(&out[pos], &x)
            invariant
                pos <= out@.len(),
                out@ == oldout,
                om == out@.map_values(|r: SearchResult| r@),
                x@ == input@[j as int]@,
                forall|k: int| 0 <= k < pos ==> ordered_pair(#[trigger] om[k], x@),
            decreases out@.len() - pos,
        {
            pos = pos + 1;
        }
        proof {
            if pos < out@.len() {
                lemma_ordered_total(om[pos as int], x@);
            }
        }
        out.insert(pos, x);
        proof {
            let nm = out@.map_values(|r: SearchResult| r@);
            assert forall|k: int| 0 <= k < nm.len() implies #[trigger] nm[k] == (
            if k < pos {
                om[k]
            } else if k == pos {
                im[j as int]
            } else {
                om[k - 1]
            }) by {
                assert(out@ == oldout.insert(pos as int, out@[pos as int]));
            }
            assert(results_sorted(nm)) by {
                assert forall|a: int, b: int| 0 <= a < b < nm.len() implies ordered_pair(
                    #[trigger] nm[a],
                    #[trigger] nm[b],
                ) by {
                    if b < pos {
                        assert(ordered_pair(om[a], om[b]));
                    } else if b == pos {
                        assert(ordered_pair(om[a], nm[b]));
                    } else if a < pos {
                        assert(ordered_pair(om[a], om[b - 1]));
                    } else if a == pos {
                        assert(!ordered_pair(om[pos as int], nm[a]) ==> ordered_pair(
                            nm[a],
                            om[pos as int],
                        ));
                        lemma_ordered_trans(nm[a], om[pos as int], om[b - 1]);
                    } else {
                        assert(ordered_pair(om[a - 1], om[b - 1]));
                    }
                }
            }
            assert forall|i: int| 0 <= i < out@.len() implies value_in(
                im,
                (#[trigger] out@[i])@,
            ) by {
                if i < pos {
                    assert(out@[i]@ == om[i]);
                } else if i == pos {
                    assert(out@[i]@ == im[j as int]);
                } else {
                    assert(out@[i]@ == om[i - 1]);
                }
            }
            assert forall|t: int| 0 <= t < j + 1 implies value_in(nm, (#[trigger] input@[t])@) by {
                if t < j {
                    let i0 = choose|i0: int| 0 <= i0 < om.len() && #[trigger] om[i0] == input@[t]@;
                    if i0 < pos {
                        assert(nm[i0] == input@[t]@);
                    } else {
                        assert(nm[i0 + 1] == input@[t]@);
                    }
                } else {
                    assert(nm[pos as int] == input@[t]@);
                }
            }
        }
        j = j + 1;
    }
    out
}

/// Collapse near-duplicates: keep only the first (best) of any overlapping
/// same-file pair within the epsilon.
#[verifier::rlimit(60)]
fn dedup_results(input: &Vec<SearchResult>) -> (out: Vec<SearchResult>)
    requires
        results_sorted(input@.map_values(|r: SearchResult| r@)),
    ensures
        results_sorted(out@.map_values(|r: SearchResult| r@)),
        forall|i: int, j: int|
            0 <= i < j < out@.len() ==> !near_dup((#[trigger] out@[i])@, (#[trigger] out@[j])@),
        forall|i: int|
            0 <= i < out@.len() ==> value_in(
                input@.map_values(|r: SearchResult| r@),
                (#[trigger] out@[i])@,
            ),
        forall|j: int|
            0 <= j < input@.len() ==> value_in(
                out@.map_values(|r: SearchResult| r@),
                (#[trigger] input@[j])@,
            ) || dup_covered(out@.map_values(|r: SearchResult| r@), (#[trigger] input@[j])@),
{
    let ghost im = input@.map_values(|r: SearchResult| r@);
    let mut out: Vec<SearchResult> = Vec::new();
    let n = input.len();
    let mut j: usize = 0;
    while j < n
        invariant
            j <= n,
            n == input@.len(),
            im == input@.map_values(|r: SearchResult| r@),
            results_sorted(im),
            results_sorted(out@.map_values(|r: SearchResult| r@)),
            forall|a: int, b: int|
                0 <= a < b < out@.len() ==> !near_dup((#[trigger] out@[a])@, (#[trigger] out@[b])@),
            forall|i: int|
                0 <= i < out@.len() ==> value_in_prefix(im, j as int, (#[trigger] out@[i])@),
            forall|t: int|
                0 <= t < j ==> value_in(
                    out@.map_values(|r: SearchResult| r@),
                    (#[trigger] input@[t])@,
                ) || dup_covered(out@.map_values(|r: SearchResult| r@), (#[trigger] input@[t])@),
        decreases n - j,
    {
        let r = copy_result(&input[j]);
        let ghost om = out@.map_values(|x: SearchResult| x@);
        let mut dup: bool = false;
        let mut k: usize = 0;
        while k < out.len()
            invariant
                k <= out@.len(),
                om == out@.map_values(|x: SearchResult| x@),
                r@ == input@[j as int]@,
                dup ==> dup_covered(om, r@),
                !dup ==> forall|i: int| 0 <= i < k ==> !near_dup(#[trigger] om[i], r@),
                dup ==> k == out@.len(),
            decreases out@.len() - k,
        {
            let cand = &out[k];
            let mut nd: bool = false;
            if bytes_equal(cand.path.as_slice(), r.path.as_slice()) {
                if cand.start_line <= r.end_line && r.start_line <= cand.end_line {
                    if cand.score >= r.score && cand.score - r.score <= DEDUP_EPSILON {
                        nd = true;
                    }
                }
            }
            proof {
                assert(nd == near_dup(om[k as int], r@));
            }
            if nd {
                dup = true;
                k = out.len();
            } else {
                k = k + 1;
            }
        }
        if !dup {
            proof {
                assert forall|i: int| 0 <= i < om.len() implies ordered_pair(
                    #[trigger] om[i],
                    r@,
                ) by {
                    assert(value_in_prefix(im, j as int, out@[i]@));
                    let t = choose|t: int|
                        0 <= t < j && t < im.len() && #[trigger] im[t] == out@[i]@;
                    assert(ordered_pair(im[t], im[j as int]));
                }
            }
            out.push(r);
            proof {
                let nm = out@.map_values(|x: SearchResult| x@);
                let ln = om.len() as int;
                assert(nm =~= om.push(im[j as int]));
                assert(results_sorted(nm)) by {
                    assert forall|a: int, b: int| 0 <= a < b < nm.len() implies ordered_pair(
                        #[trigger] nm[a],
                        #[trigger] nm[b],
                    ) by {
                        if b < ln {
                            assert(ordered_pair(om[a], om[b]));
                        } else {
                            assert(ordered_pair(om[a], im[j as int]));
                        }
                    }
                }
                assert forall|a: int, b: int|
                    0 <= a < b < out@.len() implies !near_dup(
                    (#[trigger] out@[a])@,
                    (#[trigger] out@[b])@,
                ) by {
                    if b < ln {
                        assert(!near_dup(om[a], om[b]));
                    } else {
                        assert(out@[a]@ == om[a]);
                        assert(!near_dup(om[a], r@));
                    }
                }
                assert forall|i: int| 0 <= i < out@.len() implies value_in_prefix(
                    im,
                    j + 1,
                    (#[trigger] out@[i])@,
                ) by {
                    if i < ln {
                        assert(value_in_prefix(im, j as int, om[i]));
                        let t = choose|t: int|
                            0 <= t < j && t < im.len() && #[trigger] im[t] == om[i];
                        assert(im[t] == out@[i]@);
                    } else {
                        assert(im[j as int] == out@[i]@);
                    }
                }
                assert forall|t: int|
                    0 <= t < j + 1 implies value_in(nm, (#[trigger] input@[t])@) || dup_covered(
                    nm,
                    (#[trigger] input@[t])@,
                ) by {
                    if t < j {
                        if value_in(om, input@[t]@) {
                            let i0 = choose|i0: int|
                                0 <= i0 < om.len() && #[trigger] om[i0] == input@[t]@;
                            assert(nm[i0] == input@[t]@);
                        } else {
                            let i0 = choose|i0: int|
                                0 <= i0 < om.len() && near_dup(#[trigger] om[i0], input@[t]@);
                            assert(near_dup(nm[i0], input@[t]@));
                        }
                    } else {
                        assert(nm[ln] == input@[t]@);
                    }
                }
            }
        } else {
            proof {
                assert forall|t: int|
                    0 <= t < j + 1 implies value_in(om, (#[trigger] input@[t])@) || dup_covered(
                    om,
                    (#[trigger] input@[t])@,
                ) by {
                    if t == j {
                        assert(dup_covered(om, r@));
                    }
                }
            }
        }
        j = j + 1;
    }
    proof {
        assert forall|i: int| 0 <= i < out@.len() implies value_in(im, (#[trigger] out@[i])@) by {
            assert(value_in_prefix(im, n as int, out@[i]@));
            let t = choose|t: int| 0 <= t < n && t < im.len() && #[trigger] im[t] == out@[i]@;
            assert(im[t] == out@[i]@);
        }
    }
    out
}

/// Rank the store's chunks against a query.
///
/// `scope` is a path-byte prefix filter; empty means no filter. The query
/// vector must come from the store's own tier (components within the
/// embedder's bound). Errors: an empty store is `NotIndexed` — never an
/// empty success; a query without terms is `EmptyQuery`; a vector of the
/// wrong dimension is `DimensionMismatch`. A success holds at most
/// `min(max_results, MAX_RESULTS)` hits, sorted by non-increasing score
/// with the deterministic tie-break, free of near-duplicates, each hit a
/// stored in-scope chunk with its true fused score; and every in-scope
/// chunk is either reported, collapsed onto a reported near-duplicate, or
/// outranked by the tail of a full result list.
#[verifier::rlimit(100)]
pub fn search(
    store: &VectorStore,
    query_embedding: &Vec<i32>,
    query_text: &[u8],
    max_results: usize,
    scope: &[u8],
) -> (res: Result<Vec<SearchResult>, SearchError>)
    requires
        store.wf(),
        bounded_vec(query_embedding@),
    ensures
        res is Err <==> (store@.chunks.len() == 0 || terms_of(query_text@).len() == 0
            || query_embedding@.len() != mode_dim(store@.meta.mode)),
        store@.chunks.len() == 0 ==> res == Result::<Vec<SearchResult>, SearchError>::Err(
            SearchError::NotIndexed,
        ),
        store@.chunks.len() > 0 && terms_of(query_text@).len() == 0 ==> res == Result::<
            Vec<SearchResult>,
            SearchError,
        >::Err(SearchError::EmptyQuery),
        store@.chunks.len() > 0 && terms_of(query_text@).len() > 0 && query_embedding@.len()
            != mode_dim(store@.meta.mode) ==> res == Result::<Vec<SearchResult>, SearchError>::Err(
            SearchError::DimensionMismatch,
        ),
        res matches Ok(out) ==> out@.len() <= max_results && out@.len() <= MAX_RESULTS,
        res matches Ok(out) ==> results_sorted(out@.map_values(|r: SearchResult| r@)),
        res matches Ok(out) ==> forall|i: int, j: int|
            0 <= i < j < out@.len() ==> !near_dup((#[trigger] out@[i])@, (#[trigger] out@[j])@),
        res matches Ok(out) ==> forall|i: int|
            0 <= i < out@.len() ==> hit_of_store(
                (#[trigger] out@[i])@,
                store@.chunks,
                scope@,
                query_embedding@,
                terms_of(query_text@),
            ),
        res matches Ok(out) ==> forall|i: int|
            0 <= i < out@.len() ==> (#[trigger] out@[i])@.score <= crate::score::SCORE_ONE,
        res matches Ok(out) ==> forall|t: int|
            0 <= t < store@.chunks.len() && in_scope(#[trigger] store@.chunks[t], scope@)
                ==> reported(
                out@.map_values(|r: SearchResult| r@),
                store@.chunks[t],
                query_embedding@,
                terms_of(query_text@),
            ) || covered(
                out@.map_values(|r: SearchResult| r@),
                store@.chunks[t],
                score_of(query_embedding@, terms_of(query_text@), store@.chunks[t]),
            ) || (out@.len() == (if max_results < MAX_RESULTS {
                max_results as int
            } else {
                MAX_RESULTS as int
            }) && (out@.len() == 0 || out@[out@.len() - 1]@.score as int >= score_of(
                query_embedding@,
                terms_of(query_text@),
                store@.chunks[t],
            ))),
{
    if store.chunk_count() == 0 {
        return Err(SearchError::NotIndexed);
    }
    let qterms = extract_terms(query_text);
    if qterms.len() == 0 {
        return Err(SearchError::EmptyQuery);
    }
    let dim = crate::embed::embed_dim(store.meta.mode);
    if query_embedding.len() != dim {
        return Err(SearchError::DimensionMismatch);
    }
    proof {
        assert(qterms@.map_values(|x: Vec<u8>| x@) =~= terms_of(query_text@));
    }
    let cands = collect_candidates(store, query_embedding, &qterms, scope);
    let sorted = sort_results(&cands);
    let deduped = dedup_results(&sorted);
    let bound: usize = if max_results < MAX_RESULTS {
        max_results
    } else {
        MAX_RESULTS
    };
    let mut out: Vec<SearchResult> = deduped;
    let ghost full = out@;
    proof {
        assert(full.take(full.len() as int) =~= full);
    }
    while out.len() > bound
        invariant
            out@ == full.take(out@.len() as int),
            out@.len() <= full.len(),
            out@.len() >= bound || out@.len() == full.len(),
        decreases out@.len(),
    {
        out.pop();
        proof {
            assert(full.take(out@.len() as int + 1).drop_last() =~= full.take(out@.len() as int));
        }
    }
    proof {
        let qt = terms_of(query_text@);
        let qtm = qterms@.map_values(|x: Vec<u8>| x@);
        let cm = cands@.map_values(|r: SearchResult| r@);
        let sm = sorted@.map_values(|r: SearchResult| r@);
        let fm = deduped@.map_values(|r: SearchResult| r@);
        let om = out@.map_values(|r: SearchResult| r@);
        assert(qtm == qt);
        assert(out@.len() <= bound);
        assert forall|a: int| 0 <= a < om.len() implies #[trigger] om[a] == fm[a] by {
            assert(out@[a] == full[a]);
        }
        assert(results_sorted(om)) by {
            assert forall|a: int, b: int| 0 <= a < b < om.len() implies ordered_pair(
                #[trigger] om[a],
                #[trigger] om[b],
            ) by {
                assert(ordered_pair(fm[a], fm[b]));
            }
        }
        assert forall|a: int, b: int|
            0 <= a < b < out@.len() implies !near_dup(
            (#[trigger] out@[a])@,
            (#[trigger] out@[b])@,
        ) by {
            assert(out@[a] == full[a] && out@[b] == full[b]);
            assert(!near_dup(deduped@[a]@, deduped@[b]@));
        }
        assert forall|i: int| 0 <= i < out@.len() implies hit_of_store(
            (#[trigger] out@[i])@,
            store@.chunks,
            scope@,
            query_embedding@,
            qt,
        ) by {
            assert(out@[i] == full[i]);
            assert(value_in(sm, deduped@[i]@));
            let i2 = choose|i2: int| 0 <= i2 < sm.len() && #[trigger] sm[i2] == deduped@[i]@;
            assert(value_in(cm, sorted@[i2]@));
            let i1 = choose|i1: int| 0 <= i1 < cm.len() && #[trigger] cm[i1] == sm[i2];
            assert(hit_of_store(cands@[i1]@, store@.chunks, scope@, query_embedding@, qtm));
        }
        assert forall|i: int| 0 <= i < out@.len() implies (#[trigger] out@[i])@.score
            <= crate::score::SCORE_ONE by {
            assert(hit_of_store(out@[i]@, store@.chunks, scope@, query_embedding@, qt));
            let t = choose|t: int|
                0 <= t < store@.chunks.len() && in_scope(#[trigger] store@.chunks[t], scope@)
                    && represents(out@[i]@, store@.chunks[t], query_embedding@, qt);
            crate::score::lemma_chunk_score_bounds(
                query_embedding@,
                qt,
                store@.chunks[t].embedding,
                store@.chunks[t].content,
            );
        }
        assert forall|t: int|
            0 <= t < store@.chunks.len() && in_scope(#[trigger] store@.chunks[t], scope@) implies (
        reported(om, store@.chunks[t], query_embedding@, qt) || covered(
            om,
            store@.chunks[t],
            score_of(query_embedding@, qt, store@.chunks[t]),
        ) || (om.len() == (if max_results < MAX_RESULTS {
            max_results as int
        } else {
            MAX_RESULTS as int
        }) && (om.len() == 0 || om[om.len() - 1].score as int >= score_of(
            query_embedding@,
            qt,
            store@.chunks[t],
        )))) by {
            let c = store@.chunks[t];
            let s = score_of(query_embedding@, qt, c);
            assert(reported(cm, c, query_embedding@, qtm));
            let i1 = choose|i1: int|
                0 <= i1 < cm.len() && represents(#[trigger] cm[i1], c, query_embedding@, qtm);
            assert(value_in(sm, cands@[i1]@));
            let i2 = choose|i2: int| 0 <= i2 < sm.len() && #[trigger] sm[i2] == cm[i1];
            if value_in(fm, sorted@[i2]@) {
                let i3 = choose|i3: int| 0 <= i3 < fm.len() && #[trigger] fm[i3] == sm[i2];
                if i3 < out@.len() {
                    assert(om[i3] == fm[i3]);
                    assert(represents(om[i3], c, query_embedding@, qt));
                } else {
                    assert(out@.len() < fm.len());
                    assert(out@.len() == bound);
                    if om.len() > 0 {
                        assert(ordered_pair(fm[om.len() - 1], fm[i3]));
                        assert(om[om.len() - 1].score >= fm[i3].score);
                    }
                }
            } else {
                assert(dup_covered(fm, sorted@[i2]@));
                let i3 = choose|i3: int|
                    0 <= i3 < fm.len() && near_dup(#[trigger] fm[i3], sm[i2]);
                if i3 < out@.len() {
                    assert(om[i3] == fm[i3]);
                    assert(near_dup(om[i3], cm[i1]));
                    assert(covered(om, c, s));
                } else {
                    assert(out@.len() < fm.len());
                    assert(out@.len() == bound);
                    if om.len() > 0 {
                        assert(ordered_pair(fm[om.len() - 1], fm[i3]));
                        assert(fm[i3].score >= cm[i1].score);
                        assert(om[om.len() - 1].score as int >= s);
                    }
                }
            }
        }
    }
    Ok(out)
}

} // verus!
