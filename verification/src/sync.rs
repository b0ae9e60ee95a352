//! Incremental synchronization of the store against file content.
//!
//! One file at a time: compare the file's fingerprint with the recorded one
//! and stop if nothing changed (no chunking, no embedding); otherwise
//! re-chunk, re-embed only the regions whose content fingerprint is not
//! already stored, remove stale chunks, and record the new file fingerprint.
//! A file that is too large or binary is skipped and the store is left
//! untouched; a region with no terms yields no chunk. Deleted files are
//! handled by [`sync_remove_file`].

use vstd::prelude::*;

use crate::chunker::{
    chunk_regions, chunk_text, lemma_region_content_unchanged, lemma_regions_from, line_count,
    line_text, region_content, ChunkText, LineRange, MAX_FILE_BYTES,
};
use crate::embed::{embed_bytes, embedding_of, lemma_embedding_bounded, mode_dim, EmbedMode};
use crate::fingerprint::{fingerprint64, fnv1a, FNV_OFFSET};
use crate::order::bytes_equal;
use crate::store::{
    chunk_at, chunk_key_is, file_at, has_chunk, has_file, Chunk, ChunkModel, VectorStore,
};
use crate::text::terms_of;

verus! {

/// What one file's synchronization did.
pub struct SyncReport {
    /// The recorded fingerprint already matched; nothing was touched.
    pub unchanged: bool,
    /// The file was ineligible (too large or binary) and was skipped.
    pub skipped: bool,
    /// How many chunks were freshly embedded.
    pub embedded: usize,
}

/// A file the synchronizer will index: within the size ceiling and not
/// detected as binary (no NUL byte).
pub open spec fn spec_eligible(s: Seq<u8>) -> bool {
    s.len() <= MAX_FILE_BYTES && forall|k: int| 0 <= k < s.len() ==> s[k] != 0u8
}

/// Fingerprint of one region's content.
pub open spec fn region_fp(s: Seq<u8>, r: LineRange) -> u64 {
    fnv1a(region_content(s, r), FNV_OFFSET)
}

/// The stored chunk for this region can be kept as it is: same key, same
/// content fingerprint, same end line — so no embedding call is needed.
pub open spec fn region_reused(
    oldc: Seq<ChunkModel>,
    p: Seq<u8>,
    s: Seq<u8>,
    r: LineRange,
) -> bool {
    &&& has_chunk(oldc, p, r.start + 1)
    &&& chunk_at(oldc, p, r.start + 1).fingerprint == region_fp(s, r)
    &&& chunk_at(oldc, p, r.start + 1).end_line == r.end
}

/// The region holds at least one term, so it can be embedded.
pub open spec fn region_wanted(s: Seq<u8>, r: LineRange) -> bool {
    terms_of(region_content(s, r)).len() > 0
}

/// The chunk a region ends up as after a sync: the retained stored chunk, a
/// freshly embedded one, or none when the region is unencodable.
pub open spec fn region_outcome(
    oldc: Seq<ChunkModel>,
    p: Seq<u8>,
    s: Seq<u8>,
    r: LineRange,
    mode: EmbedMode,
) -> Option<ChunkModel> {
    if region_reused(oldc, p, s, r) {
        Some(chunk_at(oldc, p, r.start + 1))
    } else if region_wanted(s, r) {
        Some(
            ChunkModel {
                path: p,
                start_line: r.start + 1,
                end_line: r.end as int,
                content: region_content(s, r),
                fingerprint: region_fp(s, r),
                embedding: embedding_of(region_content(s, r), mode),
            },
        )
    } else {
        None
    }
}

/// How many of the regions `rs` need a fresh embedding.
pub open spec fn fresh_count(
    oldc: Seq<ChunkModel>,
    p: Seq<u8>,
    s: Seq<u8>,
    rs: Seq<LineRange>,
    mode: EmbedMode,
) -> int
    decreases rs.len(),
{
    if rs.len() == 0 {
        0
    } else {
        fresh_count(oldc, p, s, rs.drop_last(), mode) + if !region_reused(oldc, p, s, rs.last())
            && region_wanted(s, rs.last()) {
            1int
        } else {
            0int
        }
    }
}

/// Editing one line recreates only the chunks whose region covers it: when
/// two files have the same line count and identical lines everywhere but
/// line `edited`, every chunk region not covering that line finds its
/// stored chunk from the first file's sync — same key, same fingerprint,
/// same end line — so its outcome is that retained chunk, embedding and
/// all, and it costs no embedding call.
pub proof fn lemma_one_line_edit(
    oldc: Seq<ChunkModel>,
    p: Seq<u8>,
    s1: Seq<u8>,
    s2: Seq<u8>,
    edited: int,
    mode: EmbedMode,
)
    requires
        line_count(s1) == line_count(s2),
        line_count(s2) <= usize::MAX,
        0 <= edited < line_count(s1),
        forall|k: int|
            0 <= k < line_count(s1) && k != edited ==> line_text(s1, k) == line_text(s2, k),
        forall|j: int|
            0 <= j < chunk_regions(line_count(s2) as usize).len() ==> {
                let r = #[trigger] chunk_regions(line_count(s2) as usize)[j];
                has_chunk(oldc, p, r.start + 1) && chunk_at(oldc, p, r.start + 1).fingerprint
                    == region_fp(s1, r) && chunk_at(oldc, p, r.start + 1).end_line == r.end
            },
    ensures
        forall|j: int|
            0 <= j < chunk_regions(line_count(s2) as usize).len() ==> {
                let r = #[trigger] chunk_regions(line_count(s2) as usize)[j];
                !(r.start <= edited < r.end) ==> region_reused(oldc, p, s2, r)
                    && region_outcome(oldc, p, s2, r, mode) == Some(
                    chunk_at(oldc, p, r.start + 1),
                )
            },
{
    let n = line_count(s2) as usize;
    let rs = chunk_regions(n);
    lemma_regions_from(0, n);
    assert forall|j: int| 0 <= j < rs.len() implies {
        let r = #[trigger] rs[j];
        !(r.start <= edited < r.end) ==> region_reused(oldc, p, s2, r) && region_outcome(
            oldc,
            p,
            s2,
            r,
            mode,
        ) == Some(chunk_at(oldc, p, r.start + 1))
    } by {
        let r = rs[j];
        if !(r.start <= edited < r.end) {
            assert(r.start < r.end <= n);
            lemma_region_content_unchanged(s1, s2, r, edited);
            assert(region_fp(s2, r) == region_fp(s1, r));
            assert(region_reused(oldc, p, s2, r));
        }
    }
}

/// All of `sync_file`'s effect on the store, for the case where the file
/// changed: the file's fingerprint is recorded, each region ends up as its
/// `region_outcome`, the file has no other chunks, and everything belonging
/// to other files is untouched.
pub open spec fn synced_state(
    oldm: crate::store::StoreModel,
    newm: crate::store::StoreModel,
    p: Seq<u8>,
    s: Seq<u8>,
) -> bool {
    let rs = chunk_regions(line_count(s) as usize);
    &&& newm.root == oldm.root
    &&& newm.meta == oldm.meta
    &&& has_file(newm.files, p)
    &&& file_at(newm.files, p).fingerprint == fnv1a(s, FNV_OFFSET)
    &&& forall|q: Seq<u8>|
        q != p ==> #[trigger] has_file(newm.files, q) == has_file(oldm.files, q)
    &&& forall|q: Seq<u8>|
        q != p && has_file(oldm.files, q) ==> #[trigger] file_at(newm.files, q) == file_at(
            oldm.files,
            q,
        )
    &&& forall|j: int|
        0 <= j < rs.len() ==> match region_outcome(oldm.chunks, p, s, #[trigger] rs[j], oldm.meta.mode) {
            Some(m) => has_chunk(newm.chunks, p, rs[j].start + 1) && chunk_at(
                newm.chunks,
                p,
                rs[j].start + 1,
            ) == m,
            None => !has_chunk(newm.chunks, p, rs[j].start + 1),
        }
    &&& forall|l: int|
        (forall|j: int| 0 <= j < rs.len() ==> (#[trigger] rs[j]).start + 1 != l) ==> !(
        #[trigger] has_chunk(newm.chunks, p, l))
    &&& forall|q: Seq<u8>, l: int|
        q != p ==> #[trigger] has_chunk(newm.chunks, q, l) == has_chunk(oldm.chunks, q, l)
    &&& forall|q: Seq<u8>, l: int|
        q != p && has_chunk(oldm.chunks, q, l) ==> #[trigger] chunk_at(newm.chunks, q, l)
            == chunk_at(oldm.chunks, q, l)
}

/// Whether `content` is eligible for indexing.
pub fn eligible_file(content: &[u8]) -> (r: bool)
    ensures
        r == spec_eligible(content@),
{
    if content.len() > MAX_FILE_BYTES {
        return false;
    }
    let mut i: usize = 0;
    while i < content.len()
        invariant
            i <= content@.len(),
            content@.len() <= MAX_FILE_BYTES,
            forall|k: int| 0 <= k < i ==> content@[k] != 0u8,
        decreases content@.len() - i,
    {
        if content[i] == 0u8 {
            return false;
        }
        i = i + 1;
    }
    true
}

/// Reconcile one file's content with the store.
///
/// If the recorded fingerprint already matches, the store is untouched and
/// no chunking or embedding happens. If the file is ineligible it is
/// skipped. Otherwise each chunk region keeps its stored chunk when the
/// region's fingerprint matches (no embedding call), is embedded afresh when
/// it changed, or is dropped when unencodable; stale chunks of the file
/// disappear; and the new file fingerprint is recorded.
#[verifier::rlimit(100)]
pub fn sync_file(store: &mut VectorStore, path: &[u8], content: &[u8]) -> (r: SyncReport)
    requires
        old(store).wf(),
    ensures
        final(store).wf(),
        r.unchanged == (has_file(old(store)@.files, path@) && file_at(
            old(store)@.files,
            path@,
        ).fingerprint == fnv1a(content@, FNV_OFFSET)),
        r.unchanged || r.skipped ==> final(store)@ == old(store)@ && r.embedded == 0,
        !r.unchanged ==> r.skipped == !spec_eligible(content@),
        !r.unchanged && !r.skipped ==> synced_state(old(store)@, final(store)@, path@, content@),
        !r.unchanged && !r.skipped ==> r.embedded as int == fresh_count(
            old(store)@.chunks,
            path@,
            content@,
            chunk_regions(line_count(content@) as usize),
            old(store)@.meta.mode,
        ),
{
    let ghost oldm = store@;
    let fp = fingerprint64(content);
    match store.file_fingerprint(path) {
        Some(prev) if prev == fp => {
            return SyncReport { unchanged: true, skipped: false, embedded: 0 };
        },
        _ => {},
    }
    if !eligible_file(content) {
        return SyncReport { unchanged: false, skipped: true, embedded: 0 };
    }
    let mode = store.meta.mode;
    proof {
        assert(mode == oldm.meta.mode);
    }
    let texts: Vec<ChunkText> = chunk_text(content);
    let ghost rs = chunk_regions(line_count(content@) as usize);
    let rn = texts.len();

    // Build every region's outcome first, while the old store is readable.
    let mut built: Vec<Option<Chunk>> = Vec::new();
    let mut embedded: usize = 0;
    let mut j: usize = 0;
    proof {
        assert(rs.take(0) =~= Seq::<LineRange>::empty());
        crate::chunker::lemma_regions_from(0, line_count(content@) as usize);
    }
    while j < rn
        invariant
            j <= rn,
            rn == rs.len(),
            store.wf(),
            store@ == oldm,
            mode == oldm.meta.mode,
            crate::chunker::is_chunking_of(content@, texts@),
            rs == chunk_regions(line_count(content@) as usize),
            forall|a: int, b: int| 0 <= a < b < rs.len() ==> rs[a].start < rs[b].start,
            forall|a: int|
                0 <= a < rs.len() ==> (#[trigger] rs[a]).start < rs[a].end,
            built@.len() == j,
            forall|k: int|
                0 <= k < j ==> match region_outcome(oldm.chunks, path@, content@, #[trigger] rs[k], mode) {
                    Some(m) => built@[k] is Some && built@[k]->0@ == m,
                    None => built@[k] is None,
                },
            embedded <= j,
            embedded as int == fresh_count(oldm.chunks, path@, content@, rs.take(j as int), mode),
        decreases rn - j,
    {
        let ct = &texts[j];
        proof {
            assert(ct.start_line as int == rs[j as int].start + 1);
            assert(ct.end_line == rs[j as int].end);
            assert(ct.content@ == region_content(content@, rs[j as int]));
        }
        let ct_fp = fingerprint64(ct.content.as_slice());
        let mut reused: bool = false;
        let mut item: Option<Chunk> = None;
        match store.get_chunk(path, ct.start_line) {
            Some(c) => {
                if c.fingerprint == ct_fp && c.end_line == ct.end_line {
                    reused = true;
                    item = Some(
                        Chunk {
                            path: vstd::slice::slice_to_vec(c.path.as_slice()),
                            start_line: c.start_line,
                            end_line: c.end_line,
                            content: vstd::slice::slice_to_vec(c.content.as_slice()),
                            fingerprint: c.fingerprint,
                            embedding: vstd::slice::slice_to_vec(c.embedding.as_slice()),
                        },
                    );
                }
            },
            None => {},
        }
        proof {
            assert(reused == region_reused(oldm.chunks, path@, content@, rs[j as int]));
        }
        if !reused {
            match embed_bytes(ct.content.as_slice(), mode) {
                Ok(emb) => {
                    item = Some(
                        Chunk {
                            path: vstd::slice::slice_to_vec(path),
                            start_line: ct.start_line,
                            end_line: ct.end_line,
                            content: vstd::slice::slice_to_vec(ct.content.as_slice()),
                            fingerprint: ct_fp,
                            embedding: emb,
                        },
                    );
                    embedded = embedded + 1;
                },
                Err(_) => {
                    item = None;
                },
            }
        }
        built.push(item);
        proof {
            assert(rs.take(j + 1).drop_last() =~= rs.take(j as int));
            assert(rs.take(j + 1).last() == rs[j as int]);
        }
        j = j + 1;
    }
    proof {
        assert(rs.take(rn as int) =~= rs);
    }

    // Apply: drop the file's old chunks, insert the outcomes, record the
    // file fingerprint.
    let ghost base_files = store@.files;
    store.remove_file_chunks(path);
    proof {
        assert forall|l: int| !has_chunk(store@.chunks, path@, l) by {
            if has_chunk(store@.chunks, path@, l) {
                let w = choose|i: int|
                    0 <= i < store@.chunks.len() && chunk_key_is(
                        #[trigger] store@.chunks[i],
                        path@,
                        l,
                    );
            }
        }
    }
    let ghost mid = store@;
    let mut k: usize = 0;
    while k < rn
        invariant
            k <= rn,
            rn == rs.len(),
            store.wf(),
            old(store).wf(),
            oldm == old(store)@,
            store@.root == oldm.root,
            store@.meta == oldm.meta,
            store@.files == mid.files,
            mid.files == oldm.files,
            mode == oldm.meta.mode,
            rs == chunk_regions(line_count(content@) as usize),
            forall|a: int, b: int| 0 <= a < b < rs.len() ==> rs[a].start < rs[b].start,
            built@.len() == rn,
            forall|t: int|
                0 <= t < rn ==> match region_outcome(oldm.chunks, path@, content@, #[trigger] rs[t], mode) {
                    Some(m) => built@[t] is Some && built@[t]->0@ == m,
                    None => built@[t] is None,
                },
            forall|t: int|
                0 <= t < k ==> match region_outcome(oldm.chunks, path@, content@, #[trigger] rs[t], mode) {
                    Some(m) => has_chunk(store@.chunks, path@, rs[t].start + 1) && chunk_at(
                        store@.chunks,
                        path@,
                        rs[t].start + 1,
                    ) == m,
                    None => !has_chunk(store@.chunks, path@, rs[t].start + 1),
                },
            forall|l: int|
                (forall|t: int| 0 <= t < k ==> (#[trigger] rs[t]).start + 1 != l) ==> !(
                #[trigger] has_chunk(store@.chunks, path@, l)),
            forall|q: Seq<u8>, l: int|
                q != path@ ==> #[trigger] has_chunk(store@.chunks, q, l) == has_chunk(
                    oldm.chunks,
                    q,
                    l,
                ),
            forall|q: Seq<u8>, l: int|
                q != path@ && has_chunk(oldm.chunks, q, l) ==> #[trigger] chunk_at(
                    store@.chunks,
                    q,
                    l,
                ) == chunk_at(oldm.chunks, q, l),
        decreases rn - k,
    {
        let ghost pre = store@;
        match &built[k] {
            Some(cref) => {
                let c = copy_chunk(cref);
                proof {
                    assert(crate::store::wf_store(oldm));
                    crate::chunker::lemma_regions_from(0, line_count(content@) as usize);
                    assert(rs[k as int].start < rs[k as int].end);
                    assert(built@[k as int] is Some && built@[k as int]->0@ == c@);
                    if region_reused(oldm.chunks, path@, content@, rs[k as int]) {
                            assert(has_chunk(oldm.chunks, path@, rs[k as int].start + 1));
                            let w = choose|i: int|
                                0 <= i < oldm.chunks.len() && chunk_key_is(
                                    #[trigger] oldm.chunks[i],
                                    path@,
                                    rs[k as int].start + 1,
                                );
                            assert(0 <= w < oldm.chunks.len() && chunk_key_is(
                                oldm.chunks[w],
                                path@,
                                rs[k as int].start + 1,
                            ));
                            assert(chunk_at(oldm.chunks, path@, rs[k as int].start + 1)
                                == oldm.chunks[w]);
                            assert(c@ == oldm.chunks[w]);
                            assert(crate::store::wf_chunk(
                                oldm.chunks[w],
                                mode_dim(oldm.meta.mode),
                            ));
                    } else {
                        assert(region_wanted(content@, rs[k as int]));
                        lemma_embedding_bounded(region_content(content@, rs[k as int]), mode);
                    }
                    assert(c@.path == path@);
                    assert(c@.start_line == rs[k as int].start + 1);
                    assert(crate::store::wf_chunk(c@, mode_dim(store@.meta.mode)));
                }
                store.upsert(c);
            },
            None => {},
        }
        proof {
            assert forall|t: int|
                0 <= t <= k implies match region_outcome(
                oldm.chunks,
                path@,
                content@,
                #[trigger] rs[t],
                mode,
            ) {
                Some(m) => has_chunk(store@.chunks, path@, rs[t].start + 1) && chunk_at(
                    store@.chunks,
                    path@,
                    rs[t].start + 1,
                ) == m,
                None => !has_chunk(store@.chunks, path@, rs[t].start + 1),
            } by {
                if t < k {
                    assert(rs[t].start + 1 != rs[k as int].start + 1);
                }
            }
        }
        k = k + 1;
    }
    store.set_file(path, fp);
    SyncReport { unchanged: false, skipped: false, embedded }
}

/// A file is gone: remove all its chunks and its fingerprint record.
///
/// The chunk count decreases by exactly the number of that file's chunks;
/// nothing belonging to any other file changes.
pub fn sync_remove_file(store: &mut VectorStore, path: &[u8]) -> (removed: usize)
    requires
        old(store).wf(),
    ensures
        final(store).wf(),
        final(store)@.root == old(store)@.root,
        final(store)@.meta == old(store)@.meta,
        removed as int == crate::store::count_path(old(store)@.chunks, path@),
        final(store)@.chunks.len() == old(store)@.chunks.len() - crate::store::count_path(
            old(store)@.chunks,
            path@,
        ),
        forall|k: int|
            0 <= k < final(store)@.chunks.len() ==> (#[trigger] final(store)@.chunks[k]).path
                != path@,
        !has_file(final(store)@.files, path@),
        forall|q: Seq<u8>, l: int|
            q != path@ ==> #[trigger] has_chunk(final(store)@.chunks, q, l) == has_chunk(
                old(store)@.chunks,
                q,
                l,
            ),
        forall|q: Seq<u8>, l: int|
            q != path@ && has_chunk(old(store)@.chunks, q, l) ==> #[trigger] chunk_at(
                final(store)@.chunks,
                q,
                l,
            ) == chunk_at(old(store)@.chunks, q, l),
        forall|q: Seq<u8>|
            q != path@ ==> #[trigger] has_file(final(store)@.files, q) == has_file(
                old(store)@.files,
                q,
            ),
        forall|q: Seq<u8>|
            q != path@ && has_file(old(store)@.files, q) ==> #[trigger] file_at(
                final(store)@.files,
                q,
            ) == file_at(old(store)@.files, q),
{
    let n = store.remove_file_chunks(path);
    store.remove_file_entry(path);
    n
}

/// A value-equal copy of a chunk.
fn copy_chunk(c: &Chunk) -> (r: Chunk)
    ensures
        r@ == c@,
{
    Chunk {
        path: vstd::slice::slice_to_vec(c.path.as_slice()),
        start_line: c.start_line,
        end_line: c.end_line,
        content: vstd::slice::slice_to_vec(c.content.as_slice()),
        fingerprint: c.fingerprint,
        embedding: vstd::slice::slice_to_vec(c.embedding.as_slice()),
    }
}

/// Whether `list` holds an entry with bytes `q`.
pub open spec fn contains_path(list: Seq<Vec<u8>>, q: Seq<u8>) -> bool {
    exists|k: int| 0 <= k < list.len() && (#[trigger] list[k])@ == q
}

/// Paths recorded in the store that are absent from `present`: the files a
/// full sync must remove.
pub fn plan_removals(store: &VectorStore, present: &Vec<Vec<u8>>) -> (gone: Vec<Vec<u8>>)
    requires
        store.wf(),
    ensures
        forall|q: Seq<u8>|
            #[trigger] contains_path(gone@, q) <==> (has_file(store@.files, q) && !contains_path(
                present@,
                q,
            )),
{
    let mut gone: Vec<Vec<u8>> = Vec::new();
    let nf = store.file_count();
    let mut i: usize = 0;
    while i < nf
        invariant
            store.wf(),
            i <= nf,
            nf == store@.files.len(),
            forall|q: Seq<u8>|
                #[trigger] contains_path(gone@, q) <==> ((exists|t: int|
                    0 <= t < i && (#[trigger] store@.files[t]).path == q) && !contains_path(
                    present@,
                    q,
                )),
        decreases nf - i,
    {
        let f = store.file_ref(i);
        let mut found: bool = false;
        let mut t: usize = 0;
        while t < present.len()
            invariant
                t <= present@.len(),
                found ==> contains_path(present@, f@.path),
                !found ==> forall|u: int| 0 <= u < t ==> (#[trigger] present@[u])@ != f@.path,
            decreases present@.len() - t,
        {
            if bytes_equal(present[t].as_slice(), f.path.as_slice()) {
                found = true;
                proof {
                    assert((present@[t as int])@ == f@.path);
                }
            }
            t = t + 1;
        }
        let ghost oldg = gone@;
        if !found {
            gone.push(vstd::slice::slice_to_vec(f.path.as_slice()));
            proof {
                assert(!contains_path(present@, f@.path));
                assert((gone@[oldg.len() as int])@ == store@.files[i as int].path);
                assert forall|q: Seq<u8>| #[trigger] contains_path(gone@, q) <==> ((exists|t2: int|
                    0 <= t2 < i + 1 && (#[trigger] store@.files[t2]).path == q) && !contains_path(
                    present@,
                    q,
                )) by {
                    if contains_path(gone@, q) {
                        let k = choose|k: int|
                            0 <= k < gone@.len() && (#[trigger] gone@[k])@ == q;
                        if k < oldg.len() {
                            assert((oldg[k])@ == q);
                            assert(contains_path(oldg, q));
                        } else {
                            assert(store@.files[i as int].path == q);
                        }
                    }
                    if (exists|t2: int|
                        0 <= t2 < i + 1 && (#[trigger] store@.files[t2]).path == q)
                        && !contains_path(present@, q) {
                        let t2 = choose|t2: int|
                            0 <= t2 < i + 1 && (#[trigger] store@.files[t2]).path == q;
                        if t2 < i {
                            assert(contains_path(oldg, q));
                            let k = choose|k: int|
                                0 <= k < oldg.len() && (#[trigger] oldg[k])@ == q;
                            assert((gone@[k])@ == q);
                        } else {
                            assert((gone@[oldg.len() as int])@ == q);
                        }
                    }
                }
            }
        } else {
            proof {
                assert forall|q: Seq<u8>| #[trigger] contains_path(gone@, q) <==> ((exists|t2: int|
                    0 <= t2 < i + 1 && (#[trigger] store@.files[t2]).path == q) && !contains_path(
                    present@,
                    q,
                )) by {
                    if (exists|t2: int|
                        0 <= t2 < i + 1 && (#[trigger] store@.files[t2]).path == q)
                        && !contains_path(present@, q) {
                        let t2 = choose|t2: int|
                            0 <= t2 < i + 1 && (#[trigger] store@.files[t2]).path == q;
                        if t2 == i {
                            assert(contains_path(present@, f@.path));
                        }
                    }
                }
            }
        }
        i = i + 1;
    }
    proof {
        assert forall|q: Seq<u8>| #[trigger] contains_path(gone@, q) <==> (has_file(
            store@.files,
            q,
        ) && !contains_path(present@, q)) by {
            assert(has_file(store@.files, q) == (exists|t: int|
                0 <= t < nf && (#[trigger] store@.files[t]).path == q));
        }
    }
    gone
}

} // verus!
