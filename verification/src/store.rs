//! The vector store: a durable, keyed collection of chunks.
//!
//! A chunk is keyed by its file path and start line — a deterministic
//! function of path and line range, so ids are stable across re-indexing
//! until boundaries or content change. Chunks are kept strictly sorted by
//! key (path bytes, then start line), which makes keys unique and iteration
//! ordered. Every stored vector has the dimension of the store's recorded
//! embedding tier: a store never mixes vectors of different models. The
//! store also records one fingerprint per indexed file, which the
//! synchronizer diffs against the filesystem.

use vstd::prelude::*;

use crate::embed::{bounded_vec, mode_dim, EmbedMode};
use crate::fingerprint::{fnv1a, FNV_OFFSET};
use crate::order::{
    bytes_equal, bytes_less, bytes_lt, lemma_bytes_lt_asym, lemma_bytes_lt_irrefl,
    lemma_bytes_lt_total, lemma_bytes_lt_trans,
};

verus! {

/// Version of the persisted layout; a mismatch means "absent, reindex".
pub const SCHEMA_VERSION: u32 = 1;

/// One stored chunk: an addressable slice of a file plus its embedding.
pub struct Chunk {
    /// File the chunk came from, as raw path bytes.
    pub path: Vec<u8>,
    /// First line of the chunk, 1-based.
    pub start_line: usize,
    /// Last line of the chunk, 1-based, inclusive.
    pub end_line: usize,
    /// The chunk's text.
    pub content: Vec<u8>,
    /// Fingerprint of `content`.
    pub fingerprint: u64,
    /// Embedding of `content` under the store's tier.
    pub embedding: Vec<i32>,
}

/// Mathematical value of a `Chunk`.
pub ghost struct ChunkModel {
    pub path: Seq<u8>,
    pub start_line: int,
    pub end_line: int,
    pub content: Seq<u8>,
    pub fingerprint: u64,
    pub embedding: Seq<i32>,
}

impl View for Chunk {
    type V = ChunkModel;

    open spec fn view(&self) -> ChunkModel {
        ChunkModel {
            path: self.path@,
            start_line: self.start_line as int,
            end_line: self.end_line as int,
            content: self.content@,
            fingerprint: self.fingerprint,
            embedding: self.embedding@,
        }
    }
}

/// Fingerprint record of one indexed file.
pub struct FileEntry {
    pub path: Vec<u8>,
    pub fingerprint: u64,
}

/// Mathematical value of a `FileEntry`.
pub ghost struct FileModel {
    pub path: Seq<u8>,
    pub fingerprint: u64,
}

impl View for FileEntry {
    type V = FileModel;

    open spec fn view(&self) -> FileModel {
        FileModel { path: self.path@, fingerprint: self.fingerprint }
    }
}

/// What the store was built with: embedding tier and layout version.
#[derive(Clone, Copy, Debug, PartialEq, Eq, Structural)]
pub struct IndexMetadata {
    pub mode: EmbedMode,
    pub schema: u32,
}

/// The vector store: metadata, file fingerprints, and sorted chunks.
pub struct VectorStore {
    /// The indexed root path, as raw bytes.
    pub root: Vec<u8>,
    pub meta: IndexMetadata,
    pub files: Vec<FileEntry>,
    pub chunks: Vec<Chunk>,
}

/// Mathematical value of a `VectorStore`.
pub ghost struct StoreModel {
    pub root: Seq<u8>,
    pub meta: IndexMetadata,
    pub files: Seq<FileModel>,
    pub chunks: Seq<ChunkModel>,
}

impl View for VectorStore {
    type V = StoreModel;

    open spec fn view(&self) -> StoreModel {
        StoreModel {
            root: self.root@,
            meta: self.meta,
            files: self.files@.map_values(|f: FileEntry| f@),
            chunks: self.chunks@.map_values(|c: Chunk| c@),
        }
    }
}

/// Strict order on chunk keys: path bytes, then start line.
pub open spec fn key_lt(p1: Seq<u8>, l1: int, p2: Seq<u8>, l2: int) -> bool {
    bytes_lt(p1, p2) || (p1 == p2 && l1 < l2)
}

/// `a` is keyed strictly before `b`.
pub open spec fn chunk_before(a: ChunkModel, b: ChunkModel) -> bool {
    key_lt(a.path, a.start_line, b.path, b.start_line)
}

/// `c` carries key `(p, l)`.
pub open spec fn chunk_key_is(c: ChunkModel, p: Seq<u8>, l: int) -> bool {
    c.path == p && c.start_line == l
}

/// The chunk sequence is strictly sorted by key.
pub open spec fn chunks_sorted(s: Seq<ChunkModel>) -> bool {
    forall|i: int, j: int| 0 <= i < j < s.len() ==> chunk_before(#[trigger] s[i], #[trigger] s[j])
}

/// A chunk that may enter a store of vector dimension `dim`.
pub open spec fn wf_chunk(c: ChunkModel, dim: int) -> bool {
    &&& 1 <= c.start_line <= c.end_line
    &&& c.fingerprint == fnv1a(c.content, FNV_OFFSET)
    &&& c.embedding.len() == dim
    &&& bounded_vec(c.embedding)
}

/// File entries carry pairwise distinct paths.
pub open spec fn files_unique(s: Seq<FileModel>) -> bool {
    forall|i: int, j: int| 0 <= i < j < s.len() ==> (#[trigger] s[i]).path != (#[trigger] s[j]).path
}

/// The store's invariant.
pub open spec fn wf_store(m: StoreModel) -> bool {
    &&& m.meta.schema == SCHEMA_VERSION
    &&& chunks_sorted(m.chunks)
    &&& forall|i: int|
        0 <= i < m.chunks.len() ==> wf_chunk(#[trigger] m.chunks[i], mode_dim(m.meta.mode))
    &&& files_unique(m.files)
}

/// Some chunk of `s` carries key `(p, l)`.
pub open spec fn has_chunk(s: Seq<ChunkModel>, p: Seq<u8>, l: int) -> bool {
    exists|i: int| 0 <= i < s.len() && chunk_key_is(#[trigger] s[i], p, l)
}

/// The chunk of `s` with key `(p, l)` (meaningful when `has_chunk`).
pub open spec fn chunk_at(s: Seq<ChunkModel>, p: Seq<u8>, l: int) -> ChunkModel {
    s[choose|i: int| 0 <= i < s.len() && chunk_key_is(#[trigger] s[i], p, l)]
}

/// Some file entry of `s` records path `p`.
pub open spec fn has_file(s: Seq<FileModel>, p: Seq<u8>) -> bool {
    exists|i: int| 0 <= i < s.len() && (#[trigger] s[i]).path == p
}

/// The entry of `s` for path `p` (meaningful when `has_file`).
pub open spec fn file_at(s: Seq<FileModel>, p: Seq<u8>) -> FileModel {
    s[choose|i: int| 0 <= i < s.len() && (#[trigger] s[i]).path == p]
}

/// Key order is transitive.
pub proof fn lemma_key_lt_trans(
    p1: Seq<u8>,
    l1: int,
    p2: Seq<u8>,
    l2: int,
    p3: Seq<u8>,
    l3: int,
)
    requires
        key_lt(p1, l1, p2, l2),
        key_lt(p2, l2, p3, l3),
    ensures
        key_lt(p1, l1, p3, l3),
{
    if bytes_lt(p1, p2) && bytes_lt(p2, p3) {
        lemma_bytes_lt_trans(p1, p2, p3);
    }
}

/// Two keys are ordered one way, the other, or equal.
pub proof fn lemma_key_lt_total(p1: Seq<u8>, l1: int, p2: Seq<u8>, l2: int)
    ensures
        key_lt(p1, l1, p2, l2) || key_lt(p2, l2, p1, l1) || (p1 == p2 && l1 == l2),
{
    lemma_bytes_lt_total(p1, p2);
}

/// An ordered pair of keys is not equal.
pub proof fn lemma_key_lt_neq(p1: Seq<u8>, l1: int, p2: Seq<u8>, l2: int)
    requires
        key_lt(p1, l1, p2, l2),
    ensures
        !(p1 == p2 && l1 == l2),
{
    if p1 == p2 {
        lemma_bytes_lt_irrefl(p1);
    }
}

/// How many chunks of `s` belong to file `p`.
pub open spec fn count_path(s: Seq<ChunkModel>, p: Seq<u8>) -> int
    decreases s.len(),
{
    if s.len() == 0 {
        0
    } else {
        count_path(s.drop_last(), p) + if s.last().path == p {
            1int
        } else {
            0int
        }
    }
}

/// When the chunks of path `p` occupy exactly the index range `[lo, hi)`,
/// their count is `hi - lo`.
pub proof fn lemma_count_path_range(s: Seq<ChunkModel>, p: Seq<u8>, lo: int, hi: int)
    requires
        0 <= lo <= hi <= s.len(),
        forall|k: int| 0 <= k < lo ==> (#[trigger] s[k]).path != p,
        forall|k: int| lo <= k < hi ==> (#[trigger] s[k]).path == p,
        forall|k: int| hi <= k < s.len() ==> (#[trigger] s[k]).path != p,
    ensures
        count_path(s, p) == hi - lo,
    decreases s.len(),
{
    if s.len() > 0 {
        let d = s.drop_last();
        assert(forall|k: int| 0 <= k < d.len() ==> #[trigger] d[k] == s[k]);
        if hi == s.len() && hi > lo {
            lemma_count_path_range(d, p, lo, hi - 1);
        } else if hi <= d.len() {
            lemma_count_path_range(d, p, lo, hi);
        } else {
            lemma_count_path_range(d, p, d.len() as int, d.len() as int);
        }
    }
}

/// In a sorted chunk sequence, a key appears at most once.
pub proof fn lemma_sorted_key_unique(s: Seq<ChunkModel>, i: int, j: int)
    requires
        chunks_sorted(s),
        0 <= i < s.len(),
        0 <= j < s.len(),
        s[i].path == s[j].path,
        s[i].start_line == s[j].start_line,
    ensures
        i == j,
{
    if i < j {
        lemma_key_lt_neq(s[i].path, s[i].start_line, s[j].path, s[j].start_line);
    }
    if j < i {
        lemma_key_lt_neq(s[j].path, s[j].start_line, s[i].path, s[i].start_line);
    }
}

/// In a sorted sequence, `chunk_at` is whichever index carries the key.
pub proof fn lemma_chunk_at_is(s: Seq<ChunkModel>, i: int)
    requires
        chunks_sorted(s),
        0 <= i < s.len(),
    ensures
        chunk_at(s, s[i].path, s[i].start_line) == s[i],
        has_chunk(s, s[i].path, s[i].start_line),
{
    assert(chunk_key_is(s[i], s[i].path, s[i].start_line));
    let w = choose|k: int|
        0 <= k < s.len() && chunk_key_is(#[trigger] s[k], s[i].path, s[i].start_line);
    lemma_sorted_key_unique(s, w, i);
}

/// Whether chunk `a` is keyed before key `(path, start_line)`.
pub fn chunk_key_less(a: &Chunk, path: &[u8], start_line: usize) -> (r: bool)
    ensures
        r == key_lt(a@.path, a@.start_line, path@, start_line as int),
{
    if bytes_less(a.path.as_slice(), path) {
        true
    } else if bytes_equal(a.path.as_slice(), path) {
        a.start_line < start_line
    } else {
        false
    }
}

impl VectorStore {
    /// The store's invariant, over its mathematical value.
    pub open spec fn wf(&self) -> bool {
        wf_store(self@)
    }

    /// A fresh, empty store for `root` under tier `mode`.
    pub fn new(root: Vec<u8>, mode: EmbedMode) -> (s: Self)
        ensures
            s.wf(),
            s@.root == root@,
            s@.meta.mode == mode,
            s@.meta.schema == SCHEMA_VERSION,
            s@.files == Seq::<FileModel>::empty(),
            s@.chunks == Seq::<ChunkModel>::empty(),
    {
        let s = VectorStore {
            root,
            meta: IndexMetadata { mode, schema: SCHEMA_VERSION },
            files: Vec::new(),
            chunks: Vec::new(),
        };
        proof {
            assert(s@.files =~= Seq::<FileModel>::empty());
            assert(s@.chunks =~= Seq::<ChunkModel>::empty());
        }
        s
    }

    /// Number of chunks in the store.
    pub fn chunk_count(&self) -> (n: usize)
        ensures
            n == self@.chunks.len(),
    {
        self.chunks.len()
    }

    /// Number of file fingerprints in the store.
    pub fn file_count(&self) -> (n: usize)
        ensures
            n == self@.files.len(),
    {
        self.files.len()
    }

    /// The `i`-th chunk in key order.
    pub fn chunk_ref(&self, i: usize) -> (c: &Chunk)
        requires
            i < self@.chunks.len(),
        ensures
            c@ == self@.chunks[i as int],
    {
        &self.chunks[i]
    }

    /// The `i`-th file entry.
    pub fn file_ref(&self, i: usize) -> (f: &FileEntry)
        requires
            i < self@.files.len(),
        ensures
            f@ == self@.files[i as int],
    {
        &self.files[i]
    }

    /// Index of the chunk with key `(path, start_line)`, if present.
    fn find_chunk(&self, path: &[u8], start_line: usize) -> (r: Option<usize>)
        requires
            self.wf(),
        ensures
            match r {
                Some(i) => i < self@.chunks.len() && chunk_key_is(
                    self@.chunks[i as int],
                    path@,
                    start_line as int,
                ),
                None => !has_chunk(self@.chunks, path@, start_line as int),
            },
    {
        let mut i: usize = 0;
        while i < self.chunks.len()
            invariant
                i <= self@.chunks.len(),
                self@.chunks.len() == self.chunks@.len(),
                forall|k: int|
                    0 <= k < i ==> !chunk_key_is(#[trigger] self@.chunks[k], path@,
                    start_line as int),
            decreases self.chunks@.len() - i,
        {
            let c = &self.chunks[i];
            if c.start_line == start_line && bytes_equal(c.path.as_slice(), path) {
                return Some(i);
            }
            i = i + 1;
        }
        None
    }

    /// The chunk with key `(path, start_line)`, if the store holds one.
    pub fn get_chunk(&self, path: &[u8], start_line: usize) -> (r: Option<&Chunk>)
        requires
            self.wf(),
        ensures
            r is Some <==> has_chunk(self@.chunks, path@, start_line as int),
            r is Some ==> r->0@ == chunk_at(self@.chunks, path@, start_line as int),
    {
        match self.find_chunk(path, start_line) {
            Some(i) => {
                proof {
                    lemma_chunk_at_is(self@.chunks, i as int);
                }
                Some(&self.chunks[i])
            },
            None => None,
        }
    }

    /// The recorded fingerprint of `path`, if the file is indexed.
    pub fn file_fingerprint(&self, path: &[u8]) -> (r: Option<u64>)
        requires
            self.wf(),
        ensures
            r is Some <==> has_file(self@.files, path@),
            r is Some ==> r->0 == file_at(self@.files, path@).fingerprint,
    {
        let mut i: usize = 0;
        while i < self.files.len()
            invariant
                i <= self@.files.len(),
                self@.files.len() == self.files@.len(),
                files_unique(self@.files),
                forall|k: int| 0 <= k < i ==> (#[trigger] self@.files[k]).path != path@,
            decreases self.files@.len() - i,
        {
            let f = &self.files[i];
            if bytes_equal(f.path.as_slice(), path) {
                proof {
                    assert(self@.files[i as int].path == path@);
                    assert(has_file(self@.files, path@));
                    let w = choose|k: int|
                        0 <= k < self@.files.len() && (#[trigger] self@.files[k]).path == path@;
                    if w < i as int {
                        assert(self@.files[w].path != self@.files[i as int].path);
                    }
                    if (i as int) < w {
                        assert(self@.files[i as int].path != self@.files[w].path);
                    }
                    assert(file_at(self@.files, path@) == self@.files[i as int]);
                }
                return Some(f.fingerprint);
            }
            i = i + 1;
        }
        None
    }

    /// Insert `c`, replacing any chunk with the same key.
    ///
    /// Every other chunk is kept unchanged; the store stays sorted and
    /// well-formed; the count grows by one exactly when the key was new.
    #[verifier::rlimit(100)]
    pub fn upsert(&mut self, c: Chunk)
        requires
            old(self).wf(),
            wf_chunk(c@, mode_dim(old(self)@.meta.mode)),
        ensures
            final(self).wf(),
            final(self)@.root == old(self)@.root,
            final(self)@.meta == old(self)@.meta,
            final(self)@.files == old(self)@.files,
            has_chunk(final(self)@.chunks, c@.path, c@.start_line),
            chunk_at(final(self)@.chunks, c@.path, c@.start_line) == c@,
            forall|p: Seq<u8>, l: int|
                !(p == c@.path && l == c@.start_line) ==> #[trigger] has_chunk(
                    final(self)@.chunks,
                    p,
                    l,
                ) == has_chunk(old(self)@.chunks, p, l),
            forall|p: Seq<u8>, l: int|
                !(p == c@.path && l == c@.start_line) && has_chunk(old(self)@.chunks, p, l)
                    ==> #[trigger] chunk_at(final(self)@.chunks, p, l) == chunk_at(
                    old(self)@.chunks,
                    p,
                    l,
                ),
            final(self)@.chunks.len() == old(self)@.chunks.len() + (
            if has_chunk(old(self)@.chunks, c@.path, c@.start_line) {
                0int
            } else {
                1int
            }),
    {
        let ghost oldc = self@.chunks;
        let mut idx: usize = 0;
        while idx < self.chunks.len() && chunk_key_less(
            &self.chunks[idx],
            c.path.as_slice(),
            c.start_line,
        )
            invariant
                idx <= self.chunks@.len(),
                oldc == self@.chunks,
                forall|k: int|
                    0 <= k < idx ==> key_lt(
                        (#[trigger] oldc[k]).path,
                        oldc[k].start_line,
                        c@.path,
                        c@.start_line,
                    ),
            decreases self.chunks@.len() - idx,
        {
            idx = idx + 1;
        }
        proof {
            assert(idx < oldc.len() ==> !key_lt(
                oldc[idx as int].path,
                oldc[idx as int].start_line,
                c@.path,
                c@.start_line,
            ));
            assert forall|k: int| 0 <= k < idx implies !chunk_key_is(
                #[trigger] oldc[k],
                c@.path,
                c@.start_line,
            ) by {
                lemma_key_lt_neq(oldc[k].path, oldc[k].start_line, c@.path, c@.start_line);
            }
        }
        let mut same: bool = false;
        if idx < self.chunks.len() {
            let cc = &self.chunks[idx];
            same = cc.start_line == c.start_line && bytes_equal(cc.path.as_slice(), c.path.as_slice());
        }
        if same {
            let ghost key_p = c@.path;
            let ghost key_l = c@.start_line;
            self.chunks[idx] = c;
            proof {
                let newc = self@.chunks;
                assert(newc =~= oldc.update(idx as int, newc[idx as int]));
                assert(chunk_key_is(newc[idx as int], key_p, key_l));
                assert(chunks_sorted(newc)) by {
                    assert forall|i: int, j: int| 0 <= i < j < newc.len() implies chunk_before(
                        #[trigger] newc[i],
                        #[trigger] newc[j],
                    ) by {
                        assert(chunk_before(oldc[i], oldc[j]));
                    }
                }
                assert(has_chunk(oldc, key_p, key_l)) by {
                    assert(chunk_key_is(oldc[idx as int], key_p, key_l));
                }
                lemma_chunk_at_is(newc, idx as int);
                assert forall|p: Seq<u8>, l: int|
                    !(p == key_p && l == key_l) implies #[trigger] has_chunk(newc, p, l)
                    == has_chunk(oldc, p, l) by {
                    if has_chunk(newc, p, l) {
                        let w = choose|i: int|
                            0 <= i < newc.len() && chunk_key_is(#[trigger] newc[i], p, l);
                        assert(w != idx);
                        assert(chunk_key_is(oldc[w], p, l));
                    }
                    if has_chunk(oldc, p, l) {
                        let w = choose|i: int|
                            0 <= i < oldc.len() && chunk_key_is(#[trigger] oldc[i], p, l);
                        assert(w != idx);
                        assert(chunk_key_is(newc[w], p, l));
                    }
                }
                assert forall|p: Seq<u8>, l: int|
                    !(p == key_p && l == key_l) && has_chunk(oldc, p, l)
                    implies #[trigger] chunk_at(newc, p, l) == chunk_at(oldc, p, l) by {
                    assert(has_chunk(newc, p, l));
                    let w1 = choose|i: int|
                        0 <= i < newc.len() && chunk_key_is(#[trigger] newc[i], p, l);
                    let w2 = choose|i: int|
                        0 <= i < oldc.len() && chunk_key_is(#[trigger] oldc[i], p, l);
                    assert(w1 != idx);
                    assert(chunk_key_is(oldc[w1], p, l));
                    lemma_sorted_key_unique(oldc, w1, w2);
                }
            }
        } else {
            let ghost key_p = c@.path;
            let ghost key_l = c@.start_line;
            proof {
                if idx < oldc.len() {
                    lemma_key_lt_total(
                        oldc[idx as int].path,
                        oldc[idx as int].start_line,
                        key_p,
                        key_l,
                    );
                    assert(key_lt(key_p, key_l, oldc[idx as int].path, oldc[idx as int].start_line));
                }
                assert forall|k: int| idx <= k < oldc.len() implies key_lt(
                    key_p,
                    key_l,
                    (#[trigger] oldc[k]).path,
                    oldc[k].start_line,
                ) by {
                    if k > idx {
                        assert(chunk_before(oldc[idx as int], oldc[k]));
                        lemma_key_lt_trans(
                            key_p,
                            key_l,
                            oldc[idx as int].path,
                            oldc[idx as int].start_line,
                            oldc[k].path,
                            oldc[k].start_line,
                        );
                    }
                }
                assert forall|k: int| idx <= k < oldc.len() implies !chunk_key_is(
                    #[trigger] oldc[k],
                    key_p,
                    key_l,
                ) by {
                    lemma_key_lt_neq(key_p, key_l, oldc[k].path, oldc[k].start_line);
                }
                assert(!has_chunk(oldc, key_p, key_l));
            }
            self.chunks.insert(idx, c);
            proof {
                let newc = self@.chunks;
                assert(newc.len() == oldc.len() + 1);
                assert forall|k: int| 0 <= k < newc.len() implies #[trigger] newc[k] == (
                if k < idx {
                    oldc[k]
                } else if k == idx {
                    newc[idx as int]
                } else {
                    oldc[k - 1]
                }) by {
                    assert(self.chunks@ == self.chunks@.subrange(0, idx as int).push(
                        self.chunks@[idx as int],
                    ).add(self.chunks@.subrange(idx + 1, self.chunks@.len() as int)));
                }
                assert(chunk_key_is(newc[idx as int], key_p, key_l));
                assert(chunks_sorted(newc)) by {
                    assert forall|i: int, j: int| 0 <= i < j < newc.len() implies chunk_before(
                        #[trigger] newc[i],
                        #[trigger] newc[j],
                    ) by {
                        if j < idx {
                            assert(chunk_before(oldc[i], oldc[j]));
                        } else if j == idx {
                            assert(key_lt(oldc[i].path, oldc[i].start_line, key_p, key_l));
                        } else if i < idx {
                            assert(chunk_before(oldc[i], oldc[j - 1]) || i == j - 1);
                            if i < j - 1 {
                                assert(chunk_before(oldc[i], oldc[j - 1]));
                            }
                        } else if i == idx {
                            assert(key_lt(key_p, key_l, oldc[j - 1].path, oldc[j - 1].start_line));
                        } else {
                            assert(chunk_before(oldc[i - 1], oldc[j - 1]));
                        }
                    }
                }
                lemma_chunk_at_is(newc, idx as int);
                assert forall|p: Seq<u8>, l: int|
                    !(p == key_p && l == key_l) implies #[trigger] has_chunk(newc, p, l)
                    == has_chunk(oldc, p, l) by {
                    if has_chunk(newc, p, l) {
                        let w = choose|i: int|
                            0 <= i < newc.len() && chunk_key_is(#[trigger] newc[i], p, l);
                        assert(w != idx);
                        if w < idx {
                            assert(chunk_key_is(oldc[w], p, l));
                        } else {
                            assert(chunk_key_is(oldc[w - 1], p, l));
                        }
                    }
                    if has_chunk(oldc, p, l) {
                        let w = choose|i: int|
                            0 <= i < oldc.len() && chunk_key_is(#[trigger] oldc[i], p, l);
                        if w < idx {
                            assert(chunk_key_is(newc[w], p, l));
                        } else {
                            assert(chunk_key_is(newc[w + 1], p, l));
                        }
                    }
                }
                assert forall|p: Seq<u8>, l: int|
                    !(p == key_p && l == key_l) && has_chunk(oldc, p, l)
                    implies #[trigger] chunk_at(newc, p, l) == chunk_at(oldc, p, l) by {
                    assert(has_chunk(newc, p, l));
                    let w1 = choose|i: int|
                        0 <= i < newc.len() && chunk_key_is(#[trigger] newc[i], p, l);
                    let w2 = choose|i: int|
                        0 <= i < oldc.len() && chunk_key_is(#[trigger] oldc[i], p, l);
                    assert(w1 != idx);
                    if w1 < idx {
                        assert(chunk_key_is(oldc[w1], p, l));
                        lemma_sorted_key_unique(oldc, w1, w2);
                    } else {
                        assert(chunk_key_is(oldc[w1 - 1], p, l));
                        lemma_sorted_key_unique(oldc, w1 - 1, w2);
                    }
                }
            }
        }
    }

    /// Remove the chunk with key `(path, start_line)`, if present.
    ///
    /// Every other chunk is kept unchanged.
    #[verifier::rlimit(100)]
    pub fn remove_chunk(&mut self, path: &[u8], start_line: usize) -> (removed: bool)
        requires
            old(self).wf(),
        ensures
            final(self).wf(),
            final(self)@.root == old(self)@.root,
            final(self)@.meta == old(self)@.meta,
            final(self)@.files == old(self)@.files,
            removed == has_chunk(old(self)@.chunks, path@, start_line as int),
            !has_chunk(final(self)@.chunks, path@, start_line as int),
            forall|p: Seq<u8>, l: int|
                !(p == path@ && l == start_line as int) ==> #[trigger] has_chunk(
                    final(self)@.chunks,
                    p,
                    l,
                ) == has_chunk(old(self)@.chunks, p, l),
            forall|p: Seq<u8>, l: int|
                !(p == path@ && l == start_line as int) && has_chunk(old(self)@.chunks, p, l)
                    ==> #[trigger] chunk_at(final(self)@.chunks, p, l) == chunk_at(
                    old(self)@.chunks,
                    p,
                    l,
                ),
            final(self)@.chunks.len() == old(self)@.chunks.len() - (
            if has_chunk(old(self)@.chunks, path@, start_line as int) {
                1int
            } else {
                0int
            }),
    {
        let ghost oldc = self@.chunks;
        match self.find_chunk(path, start_line) {
            None => false,
            Some(i) => {
                proof {
                    assert(has_chunk(oldc, path@, start_line as int));
                }
                self.chunks.remove(i);
                proof {
                    let newc = self@.chunks;
                    assert(newc.len() == oldc.len() - 1);
                    assert forall|k: int| 0 <= k < newc.len() implies #[trigger] newc[k] == (
                    if k < i {
                        oldc[k]
                    } else {
                        oldc[k + 1]
                    }) by {}
                    assert(chunks_sorted(newc)) by {
                        assert forall|a: int, b: int| 0 <= a < b < newc.len() implies chunk_before(
                            #[trigger] newc[a],
                            #[trigger] newc[b],
                        ) by {
                            let a2: int = if a < i {
                                a
                            } else {
                                a + 1
                            };
                            let b2: int = if b < i {
                                b
                            } else {
                                b + 1
                            };
                            assert(chunk_before(oldc[a2], oldc[b2]));
                        }
                    }
                    assert(!has_chunk(newc, path@, start_line as int)) by {
                        if has_chunk(newc, path@, start_line as int) {
                            let w = choose|k: int|
                                0 <= k < newc.len() && chunk_key_is(
                                    #[trigger] newc[k],
                                    path@,
                                    start_line as int,
                                );
                            if w < i {
                                lemma_sorted_key_unique(oldc, w, i as int);
                            } else {
                                lemma_sorted_key_unique(oldc, w + 1, i as int);
                            }
                        }
                    }
                    assert forall|p: Seq<u8>, l: int|
                        !(p == path@ && l == start_line as int) implies #[trigger] has_chunk(
                        newc,
                        p,
                        l,
                    ) == has_chunk(oldc, p, l) by {
                        if has_chunk(newc, p, l) {
                            let w = choose|k: int|
                                0 <= k < newc.len() && chunk_key_is(#[trigger] newc[k], p, l);
                            if w < i {
                                assert(chunk_key_is(oldc[w], p, l));
                            } else {
                                assert(chunk_key_is(oldc[w + 1], p, l));
                            }
                        }
                        if has_chunk(oldc, p, l) {
                            let w = choose|k: int|
                                0 <= k < oldc.len() && chunk_key_is(#[trigger] oldc[k], p, l);
                            assert(w != i);
                            if w < i {
                                assert(chunk_key_is(newc[w], p, l));
                            } else {
                                assert(chunk_key_is(newc[w - 1], p, l));
                            }
                        }
                    }
                    assert forall|p: Seq<u8>, l: int|
                        !(p == path@ && l == start_line as int) && has_chunk(oldc, p, l)
                        implies #[trigger] chunk_at(newc, p, l) == chunk_at(oldc, p, l) by {
                        assert(has_chunk(newc, p, l));
                        let w1 = choose|k: int|
                            0 <= k < newc.len() && chunk_key_is(#[trigger] newc[k], p, l);
                        let w2 = choose|k: int|
                            0 <= k < oldc.len() && chunk_key_is(#[trigger] oldc[k], p, l);
                        if w1 < i {
                            assert(chunk_key_is(oldc[w1], p, l));
                            lemma_sorted_key_unique(oldc, w1, w2);
                        } else {
                            assert(chunk_key_is(oldc[w1 + 1], p, l));
                            lemma_sorted_key_unique(oldc, w1 + 1, w2);
                        }
                    }
                }
                true
            },
        }
    }

    /// Record (or update) the fingerprint of file `path`.
    pub fn set_file(&mut self, path: &[u8], fp: u64)
        requires
            old(self).wf(),
        ensures
            final(self).wf(),
            final(self)@.root == old(self)@.root,
            final(self)@.meta == old(self)@.meta,
            final(self)@.chunks == old(self)@.chunks,
            has_file(final(self)@.files, path@),
            file_at(final(self)@.files, path@).fingerprint == fp,
            forall|q: Seq<u8>|
                q != path@ ==> #[trigger] has_file(final(self)@.files, q) == has_file(
                    old(self)@.files,
                    q,
                ),
            forall|q: Seq<u8>|
                q != path@ && has_file(old(self)@.files, q) ==> #[trigger] file_at(
                    final(self)@.files,
                    q,
                ) == file_at(old(self)@.files, q),
            final(self)@.files.len() == old(self)@.files.len() + (
            if has_file(old(self)@.files, path@) {
                0int
            } else {
                1int
            }),
    {
        let ghost oldf = self@.files;
        let mut i: usize = 0;
        while i < self.files.len()
            invariant
                i <= self.files@.len(),
                old(self).wf(),
                oldf == old(self)@.files,
                oldf == self@.files,
                self@.root == old(self)@.root,
                self@.meta == old(self)@.meta,
                self@.chunks == old(self)@.chunks,
                forall|k: int| 0 <= k < i ==> (#[trigger] oldf[k]).path != path@,
            decreases self.files@.len() - i,
        {
            let same = bytes_equal(self.files[i].path.as_slice(), path);
            if same {
                self.files[i] = FileEntry { path: vstd::slice::slice_to_vec(path), fingerprint: fp };
                proof {
                    let newf = self@.files;
                    assert(newf =~= oldf.update(i as int, newf[i as int]));
                    assert(newf[i as int].path == path@);
                    assert(files_unique(newf)) by {
                        assert forall|a: int, b: int|
                            0 <= a < b < newf.len() implies (#[trigger] newf[a]).path != (
                        #[trigger] newf[b]).path by {
                            assert(oldf[a].path != oldf[b].path);
                            assert(oldf[i as int].path == path@);
                        }
                    }
                    assert(has_file(oldf, path@)) by {
                        assert(oldf[i as int].path == path@);
                    }
                    assert(file_at(newf, path@) == newf[i as int]) by {
                        let w = choose|k: int|
                            0 <= k < newf.len() && (#[trigger] newf[k]).path == path@;
                        if w != i {
                            assert(newf[w] == oldf[w]);
                            assert(oldf[w].path != oldf[i as int].path);
                        }
                    }
                    assert forall|q: Seq<u8>| q != path@ implies #[trigger] has_file(newf, q)
                        == has_file(oldf, q) by {
                        if has_file(newf, q) {
                            let w = choose|k: int|
                                0 <= k < newf.len() && (#[trigger] newf[k]).path == q;
                            assert(w != i);
                            assert(oldf[w].path == q);
                        }
                        if has_file(oldf, q) {
                            let w = choose|k: int|
                                0 <= k < oldf.len() && (#[trigger] oldf[k]).path == q;
                            assert(w != i);
                            assert(newf[w].path == q);
                        }
                    }
                    assert forall|q: Seq<u8>| q != path@ && has_file(oldf, q) implies #[trigger] file_at(
                        newf,
                        q,
                    ) == file_at(oldf, q) by {
                assert(has_file(newf, q));
                        let w1 = choose|k: int|
                            0 <= k < newf.len() && (#[trigger] newf[k]).path == q;
                        let w2 = choose|k: int|
                            0 <= k < oldf.len() && (#[trigger] oldf[k]).path == q;
                        assert(w1 != i);
                        assert(oldf[w1].path == q);
                        if w1 < w2 {
                            assert(oldf[w1].path != oldf[w2].path);
                        }
                        if w2 < w1 {
                            assert(oldf[w2].path != oldf[w1].path);
                        }
                    }
                }
                return ;
            }
            i = i + 1;
        }
        proof {
            assert(!has_file(oldf, path@));
        }
        self.files.push(FileEntry { path: vstd::slice::slice_to_vec(path), fingerprint: fp });
        proof {
            let newf = self@.files;
            assert(newf =~= oldf.push(newf[newf.len() - 1]));
            assert(newf[newf.len() - 1].path == path@);
            let last = newf.len() - 1;
            assert(files_unique(newf)) by {
                assert forall|a: int, b: int|
                    0 <= a < b < newf.len() implies (#[trigger] newf[a]).path != (
                #[trigger] newf[b]).path by {
                    if b < last {
                        assert(oldf[a].path != oldf[b].path);
                    } else {
                        assert(newf[a] == oldf[a]);
                        assert(oldf[a].path != path@);
                    }
                }
            }
            assert(file_at(newf, path@) == newf[last]) by {
                let w = choose|k: int| 0 <= k < newf.len() && (#[trigger] newf[k]).path == path@;
                if w < last {
                    assert(oldf[w].path != path@);
                }
            }
            assert forall|q: Seq<u8>| q != path@ implies #[trigger] has_file(newf, q) == has_file(
                oldf,
                q,
            ) by {
                if has_file(newf, q) {
                    let w = choose|k: int| 0 <= k < newf.len() && (#[trigger] newf[k]).path == q;
                    assert(w != last);
                    assert(oldf[w].path == q);
                }
                if has_file(oldf, q) {
                    let w = choose|k: int| 0 <= k < oldf.len() && (#[trigger] oldf[k]).path == q;
                    assert(newf[w].path == q);
                }
            }
            assert forall|q: Seq<u8>| q != path@ && has_file(oldf, q) implies #[trigger] file_at(
                newf,
                q,
            ) == file_at(oldf, q) by {
                assert(has_file(newf, q));
                let w1 = choose|k: int| 0 <= k < newf.len() && (#[trigger] newf[k]).path == q;
                let w2 = choose|k: int| 0 <= k < oldf.len() && (#[trigger] oldf[k]).path == q;
                assert(w1 != last);
                assert(oldf[w1].path == q);
                if w1 < w2 {
                    assert(oldf[w1].path != oldf[w2].path);
                }
                if w2 < w1 {
                    assert(oldf[w2].path != oldf[w1].path);
                }
            }
        }
    }

    /// Drop the fingerprint record of file `path`, if present.
    pub fn remove_file_entry(&mut self, path: &[u8]) -> (removed: bool)
        requires
            old(self).wf(),
        ensures
            final(self).wf(),
            final(self)@.root == old(self)@.root,
            final(self)@.meta == old(self)@.meta,
            final(self)@.chunks == old(self)@.chunks,
            removed == has_file(old(self)@.files, path@),
            !has_file(final(self)@.files, path@),
            forall|q: Seq<u8>|
                q != path@ ==> #[trigger] has_file(final(self)@.files, q) == has_file(
                    old(self)@.files,
                    q,
                ),
            forall|q: Seq<u8>|
                q != path@ && has_file(old(self)@.files, q) ==> #[trigger] file_at(
                    final(self)@.files,
                    q,
                ) == file_at(old(self)@.files, q),
            final(self)@.files.len() == old(self)@.files.len() - (
            if has_file(old(self)@.files, path@) {
                1int
            } else {
                0int
            }),
    {
        let ghost oldf = self@.files;
        let mut i: usize = 0;
        while i < self.files.len()
            invariant
                i <= self.files@.len(),
                old(self).wf(),
                oldf == old(self)@.files,
                oldf == self@.files,
                self@.root == old(self)@.root,
                self@.meta == old(self)@.meta,
                self@.chunks == old(self)@.chunks,
                files_unique(oldf),
                forall|k: int| 0 <= k < i ==> (#[trigger] oldf[k]).path != path@,
            decreases self.files@.len() - i,
        {
            let same = bytes_equal(self.files[i].path.as_slice(), path);
            if same {
                proof {
                    assert(oldf[i as int].path == path@);
                }
                self.files.remove(i);
                proof {
                    let newf = self@.files;
                    assert(newf.len() == oldf.len() - 1);
                    assert forall|k: int| 0 <= k < newf.len() implies #[trigger] newf[k] == (
                    if k < i {
                        oldf[k]
                    } else {
                        oldf[k + 1]
                    }) by {}
                    assert(files_unique(newf)) by {
                        assert forall|a: int, b: int|
                            0 <= a < b < newf.len() implies (#[trigger] newf[a]).path != (
                        #[trigger] newf[b]).path by {
                            let a2: int = if a < i {
                                a
                            } else {
                                a + 1
                            };
                            let b2: int = if b < i {
                                b
                            } else {
                                b + 1
                            };
                            assert(oldf[a2].path != oldf[b2].path);
                        }
                    }
                    assert(!has_file(newf, path@)) by {
                        if has_file(newf, path@) {
                            let w = choose|k: int|
                                0 <= k < newf.len() && (#[trigger] newf[k]).path == path@;
                            if w < i {
                                assert(oldf[w].path != oldf[i as int].path);
                            } else {
                                assert(oldf[w + 1].path != oldf[i as int].path);
                            }
                        }
                    }
                    assert forall|q: Seq<u8>| q != path@ implies #[trigger] has_file(newf, q)
                        == has_file(oldf, q) by {
                        if has_file(newf, q) {
                            let w = choose|k: int|
                                0 <= k < newf.len() && (#[trigger] newf[k]).path == q;
                            if w < i {
                                assert(oldf[w].path == q);
                            } else {
                                assert(oldf[w + 1].path == q);
                            }
                        }
                        if has_file(oldf, q) {
                            let w = choose|k: int|
                                0 <= k < oldf.len() && (#[trigger] oldf[k]).path == q;
                            assert(w != i);
                            if w < i {
                                assert(newf[w].path == q);
                            } else {
                                assert(newf[w - 1].path == q);
                            }
                        }
                    }
                    assert forall|q: Seq<u8>| q != path@ && has_file(oldf, q) implies #[trigger] file_at(
                        newf,
                        q,
                    ) == file_at(oldf, q) by {
                assert(has_file(newf, q));
                        let w1 = choose|k: int|
                            0 <= k < newf.len() && (#[trigger] newf[k]).path == q;
                        let w2 = choose|k: int|
                            0 <= k < oldf.len() && (#[trigger] oldf[k]).path == q;
                        let w1o: int = if w1 < i {
                            w1
                        } else {
                            w1 + 1
                        };
                        assert(oldf[w1o].path == q);
                        if w1o < w2 {
                            assert(oldf[w1o].path != oldf[w2].path);
                        }
                        if w2 < w1o {
                            assert(oldf[w2].path != oldf[w1o].path);
                        }
                    }
                }
                return true;
            }
            i = i + 1;
        }
        proof {
            assert(!has_file(oldf, path@));
        }
        false
    }

    /// Remove every chunk of file `path`; the chunk count decreases by the
    /// number of that file's chunks. Chunks of other files are untouched.
    #[verifier::rlimit(100)]
    pub fn remove_file_chunks(&mut self, path: &[u8]) -> (removed: usize)
        requires
            old(self).wf(),
        ensures
            final(self).wf(),
            final(self)@.root == old(self)@.root,
            final(self)@.meta == old(self)@.meta,
            final(self)@.files == old(self)@.files,
            forall|k: int|
                0 <= k < final(self)@.chunks.len() ==> (#[trigger] final(self)@.chunks[k]).path
                    != path@,
            forall|p: Seq<u8>, l: int|
                p != path@ ==> #[trigger] has_chunk(final(self)@.chunks, p, l) == has_chunk(
                    old(self)@.chunks,
                    p,
                    l,
                ),
            forall|p: Seq<u8>, l: int|
                p != path@ && has_chunk(old(self)@.chunks, p, l) ==> #[trigger] chunk_at(
                    final(self)@.chunks,
                    p,
                    l,
                ) == chunk_at(old(self)@.chunks, p, l),
            removed as int == count_path(old(self)@.chunks, path@),
            final(self)@.chunks.len() == old(self)@.chunks.len() - count_path(
                old(self)@.chunks,
                path@,
            ),
    {
        let ghost oldc = self@.chunks;
        let n = self.chunks.len();
        let mut lo: usize = 0;
        while lo < n && !bytes_equal(self.chunks[lo].path.as_slice(), path)
            invariant
                lo <= n,
                n == self.chunks@.len(),
                oldc == self@.chunks,
                forall|k: int| 0 <= k < lo ==> (#[trigger] oldc[k]).path != path@,
            decreases n - lo,
        {
            lo = lo + 1;
        }
        if lo == n {
            proof {
                lemma_count_path_range(oldc, path@, n as int, n as int);
            }
            return 0;
        }
        proof {
            assert(oldc[lo as int].path == path@);
        }
        let mut hi: usize = lo + 1;
        while hi < n && bytes_equal(self.chunks[hi].path.as_slice(), path)
            invariant
                lo < hi <= n,
                n == self.chunks@.len(),
                oldc == self@.chunks,
                forall|k: int| lo <= k < hi ==> (#[trigger] oldc[k]).path == path@,
            decreases n - hi,
        {
            hi = hi + 1;
        }
        proof {
            assert forall|k: int| hi <= k < n implies (#[trigger] oldc[k]).path != path@ by {
                if oldc[k].path == path@ && k > hi {
                    assert(chunk_before(oldc[lo as int], oldc[hi as int]));
                    assert(chunk_before(oldc[hi as int], oldc[k]));
                    assert(bytes_lt(path@, oldc[hi as int].path));
                    assert(bytes_lt(oldc[hi as int].path, path@));
                    lemma_bytes_lt_asym(path@, oldc[hi as int].path);
                }
            }
            lemma_count_path_range(oldc, path@, lo as int, hi as int);
            assert(oldc.take(lo as int).add(oldc.skip(lo as int)) =~= oldc);
        }
        let count: usize = hi - lo;
        let mut t: usize = 0;
        while t < count
            invariant
                t <= count,
                count == hi - lo,
                lo < hi <= n,
                n == oldc.len(),
                old(self).wf(),
                oldc == old(self)@.chunks,
                self@.root == old(self)@.root,
                self@.meta == old(self)@.meta,
                self@.files == old(self)@.files,
                self@.chunks =~= oldc.take(lo as int).add(oldc.skip(lo + t)),
            decreases count - t,
        {
            proof {
                assert(self@.chunks.len() == lo + (n - (lo + t)));
            }
            let ghost prev = self@.chunks;
            let ghost prevv = self.chunks@;
            self.chunks.remove(lo);
            proof {
                assert(self.chunks@ == prevv.remove(lo as int));
                assert forall|k: int| 0 <= k < self@.chunks.len() implies #[trigger] self@.chunks[k]
                    == (if k < lo {
                    prev[k]
                } else {
                    prev[k + 1]
                }) by {
                    assert(self.chunks@[k] == if k < lo {
                        prevv[k]
                    } else {
                        prevv[k + 1]
                    });
                }
                assert(self@.chunks =~= oldc.take(lo as int).add(oldc.skip(lo + t + 1)));
            }
            t = t + 1;
        }
        proof {
            let newc = self@.chunks;
            let d: int = hi - lo;
            assert(newc =~= oldc.take(lo as int).add(oldc.skip(hi as int)));
            assert(newc.len() == oldc.len() - d);
            assert forall|k: int| 0 <= k < newc.len() implies #[trigger] newc[k] == (
            if k < lo {
                oldc[k]
            } else {
                oldc[k + d]
            }) by {}
            assert(chunks_sorted(newc)) by {
                assert forall|a: int, b: int| 0 <= a < b < newc.len() implies chunk_before(
                    #[trigger] newc[a],
                    #[trigger] newc[b],
                ) by {
                    let a2: int = if a < lo {
                        a
                    } else {
                        a + d
                    };
                    let b2: int = if b < lo {
                        b
                    } else {
                        b + d
                    };
                    assert(chunk_before(oldc[a2], oldc[b2]));
                }
            }
            assert forall|p: Seq<u8>, l: int| p != path@ implies #[trigger] has_chunk(newc, p, l)
                == has_chunk(oldc, p, l) by {
                if has_chunk(newc, p, l) {
                    let w = choose|k: int|
                        0 <= k < newc.len() && chunk_key_is(#[trigger] newc[k], p, l);
                    if w < lo {
                        assert(chunk_key_is(oldc[w], p, l));
                    } else {
                        assert(chunk_key_is(oldc[w + d], p, l));
                    }
                }
                if has_chunk(oldc, p, l) {
                    let w = choose|k: int|
                        0 <= k < oldc.len() && chunk_key_is(#[trigger] oldc[k], p, l);
                    assert(!(lo <= w < hi));
                    if w < lo {
                        assert(chunk_key_is(newc[w], p, l));
                    } else {
                        assert(chunk_key_is(newc[w - d], p, l));
                    }
                }
            }
            assert forall|p: Seq<u8>, l: int|
                p != path@ && has_chunk(oldc, p, l) implies #[trigger] chunk_at(newc, p, l)
                == chunk_at(oldc, p, l) by {
                assert(has_chunk(newc, p, l));
                let w1 = choose|k: int|
                    0 <= k < newc.len() && chunk_key_is(#[trigger] newc[k], p, l);
                let w2 = choose|k: int|
                    0 <= k < oldc.len() && chunk_key_is(#[trigger] oldc[k], p, l);
                let w1o: int = if w1 < lo {
                    w1
                } else {
                    w1 + d
                };
                assert(chunk_key_is(oldc[w1o], p, l));
                lemma_sorted_key_unique(oldc, w1o, w2);
            }
        }
        count
    }
}

} // verus!
