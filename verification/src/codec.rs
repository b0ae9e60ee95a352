//! The store's durable snapshot format.
//!
//! A store is persisted as one byte string: schema version, embedding tier,
//! root path, the file-fingerprint table, and the chunk table, every number
//! as 8 little-endian bytes and every byte string length-prefixed. Decoding
//! accepts exactly the encodings of well-formed stores — a wrong schema or
//! tier tag, a corrupt field, an out-of-order chunk table or a fingerprint
//! that does not match its content all yield "absent" — so a snapshot read
//! back is bit-identical to the store that wrote it. Writing the bytes to
//! disk (new generation, then atomic swap) is the caller's side.

use vstd::prelude::*;

use vstd::bytes::{
    lemma_auto_spec_u64_to_from_le_bytes, spec_u64_from_le_bytes, spec_u64_to_le_bytes,
    u64_from_le_bytes, u64_to_le_bytes,
};

use crate::embed::{bounded_vec, mode_dim, EmbedMode};
use crate::fingerprint::{fingerprint64, fnv1a, FNV_OFFSET};
use crate::store::{
    chunk_before, chunks_sorted, files_unique, wf_chunk, wf_store, Chunk, ChunkModel, FileEntry,
    FileModel, IndexMetadata, StoreModel, VectorStore, SCHEMA_VERSION,
};

verus! {

/// Bias added to a vector component so it is stored unsigned.
pub const COMP_BIAS: u64 = 10000;

/// The tier a tag byte stands for.
pub open spec fn mode_of_tag(t: u64) -> Option<EmbedMode> {
    if t == 1 {
        Some(EmbedMode::Fast)
    } else if t == 2 {
        Some(EmbedMode::Balanced)
    } else if t == 3 {
        Some(EmbedMode::Code)
    } else if t == 4 {
        Some(EmbedMode::Hybrid)
    } else {
        None
    }
}

/// The tag of a tier.
pub open spec fn tag_of_mode(m: EmbedMode) -> u64 {
    match m {
        EmbedMode::Fast => 1,
        EmbedMode::Balanced => 2,
        EmbedMode::Code => 3,
        EmbedMode::Hybrid => 4,
    }
}

/// A number as its 8 little-endian bytes.
pub open spec fn enc_u64(x: u64) -> Seq<u8> {
    spec_u64_to_le_bytes(x)
}

/// A byte string, length-prefixed.
pub open spec fn enc_bytes(b: Seq<u8>) -> Seq<u8> {
    enc_u64(b.len() as u64).add(b)
}

/// One vector component, biased to be unsigned.
pub open spec fn enc_comp(c: i32) -> Seq<u8> {
    enc_u64((c + COMP_BIAS) as u64)
}

/// A vector's components in order.
pub open spec fn enc_comps(v: Seq<i32>) -> Seq<u8>
    decreases v.len(),
{
    if v.len() == 0 {
        Seq::empty()
    } else {
        enc_comp(v[0]).add(enc_comps(v.skip(1)))
    }
}

/// One file-fingerprint record.
pub open spec fn enc_file(f: FileModel) -> Seq<u8> {
    enc_bytes(f.path).add(enc_u64(f.fingerprint))
}

/// The file table, in order.
pub open spec fn enc_files(fs: Seq<FileModel>) -> Seq<u8>
    decreases fs.len(),
{
    if fs.len() == 0 {
        Seq::empty()
    } else {
        enc_file(fs[0]).add(enc_files(fs.skip(1)))
    }
}

/// One chunk with all its fields.
pub open spec fn enc_chunk(c: ChunkModel) -> Seq<u8> {
    enc_bytes(c.path).add(enc_u64(c.start_line as u64)).add(enc_u64(c.end_line as u64)).add(
        enc_bytes(c.content),
    ).add(enc_u64(c.fingerprint)).add(enc_u64(c.embedding.len() as u64)).add(
        enc_comps(c.embedding),
    )
}

/// The chunk table, in order.
pub open spec fn enc_chunks(cs: Seq<ChunkModel>) -> Seq<u8>
    decreases cs.len(),
{
    if cs.len() == 0 {
        Seq::empty()
    } else {
        enc_chunk(cs[0]).add(enc_chunks(cs.skip(1)))
    }
}

/// The whole snapshot.
pub open spec fn encode_model(m: StoreModel) -> Seq<u8> {
    enc_u64(m.meta.schema as u64).add(enc_u64(tag_of_mode(m.meta.mode))).add(enc_bytes(m.root)).add(
        enc_u64(m.files.len() as u64),
    ).add(enc_files(m.files)).add(enc_u64(m.chunks.len() as u64)).add(enc_chunks(m.chunks))
}

/// Sizes under which a store can be encoded and read back on this machine.
pub open spec fn encodable(m: StoreModel) -> bool {
    &&& m.root.len() <= usize::MAX
    &&& m.files.len() <= usize::MAX
    &&& forall|i: int| 0 <= i < m.files.len() ==> (#[trigger] m.files[i]).path.len() <= usize::MAX
    &&& m.chunks.len() <= usize::MAX
    &&& forall|i: int|
        0 <= i < m.chunks.len() ==> (#[trigger] m.chunks[i]).path.len() <= usize::MAX
            && m.chunks[i].content.len() <= usize::MAX && m.chunks[i].end_line <= usize::MAX
}


/// The value of a parse result.
pub open spec fn opt_val<A, B>(o: Option<(A, B)>) -> A
    recommends
        o is Some,
{
    match o {
        Some(p) => p.0,
        None => arbitrary(),
    }
}

/// The next position of a parse result.
pub open spec fn opt_pos<A, B>(o: Option<(A, B)>) -> B
    recommends
        o is Some,
{
    match o {
        Some(p) => p.1,
        None => arbitrary(),
    }
}

/// Read a number at `pos`.
pub open spec fn dec_u64(b: Seq<u8>, pos: int) -> Option<(u64, int)> {
    if 0 <= pos && pos + 8 <= b.len() {
        Some((spec_u64_from_le_bytes(b.subrange(pos, pos + 8)), pos + 8))
    } else {
        None
    }
}

/// Read a length-prefixed byte string at `pos`.
pub open spec fn dec_bytes(b: Seq<u8>, pos: int) -> Option<(Seq<u8>, int)> {
    match dec_u64(b, pos) {
        None => None,
        Some((n, p)) => if n <= usize::MAX && p + n <= b.len() {
            Some((b.subrange(p, p + n), p + n))
        } else {
            None
        },
    }
}

/// Read `n` vector components at `pos`.
pub open spec fn dec_comps(b: Seq<u8>, pos: int, n: int) -> Option<(Seq<i32>, int)>
    decreases n,
{
    if n <= 0 {
        Some((Seq::empty(), pos))
    } else {
        match dec_u64(b, pos) {
            None => None,
            Some((x, p)) => if x <= 2 * COMP_BIAS {
                match dec_comps(b, p, n - 1) {
                    None => None,
                    Some((rest, q)) => Some(
                        (seq![(x - COMP_BIAS) as i32].add(rest), q),
                    ),
                }
            } else {
                None
            },
        }
    }
}

/// Read one file record at `pos`.
pub open spec fn dec_file(b: Seq<u8>, pos: int) -> Option<(FileModel, int)> {
    match dec_bytes(b, pos) {
        None => None,
        Some((path, p1)) => match dec_u64(b, p1) {
            None => None,
            Some((fp, p2)) => Some((FileModel { path, fingerprint: fp }, p2)),
        },
    }
}

/// Read `n` file records at `pos`.
pub open spec fn dec_files(b: Seq<u8>, pos: int, n: int) -> Option<(Seq<FileModel>, int)>
    decreases n,
{
    if n <= 0 {
        Some((Seq::empty(), pos))
    } else {
        match dec_file(b, pos) {
            None => None,
            Some((f, p)) => match dec_files(b, p, n - 1) {
                None => None,
                Some((rest, q)) => Some((seq![f].add(rest), q)),
            },
        }
    }
}

/// Read one chunk at `pos`. Line numbers must be plausible and fit.
pub open spec fn dec_chunk(b: Seq<u8>, pos: int) -> Option<(ChunkModel, int)> {
    match dec_bytes(b, pos) {
        None => None,
        Some((path, p1)) => match dec_u64(b, p1) {
            None => None,
            Some((start, p2)) => match dec_u64(b, p2) {
                None => None,
                Some((end, p3)) => if 1 <= start && start <= end && end <= usize::MAX {
                    match dec_bytes(b, p3) {
                        None => None,
                        Some((content, p4)) => match dec_u64(b, p4) {
                            None => None,
                            Some((fp, p5)) => match dec_u64(b, p5) {
                                None => None,
                                Some((en, p6)) => if en <= usize::MAX {
                                    match dec_comps(b, p6, en as int) {
                                        None => None,
                                        Some((emb, p7)) => Some(
                                            (
                                                ChunkModel {
                                                    path,
                                                    start_line: start as int,
                                                    end_line: end as int,
                                                    content,
                                                    fingerprint: fp,
                                                    embedding: emb,
                                                },
                                                p7,
                                            ),
                                        ),
                                    }
                                } else {
                                    None
                                },
                            },
                        },
                    }
                } else {
                    None
                },
            },
        },
    }
}

/// Read `n` chunks at `pos`.
pub open spec fn dec_chunks(b: Seq<u8>, pos: int, n: int) -> Option<(Seq<ChunkModel>, int)>
    decreases n,
{
    if n <= 0 {
        Some((Seq::empty(), pos))
    } else {
        match dec_chunk(b, pos) {
            None => None,
            Some((c, p)) => match dec_chunks(b, p, n - 1) {
                None => None,
                Some((rest, q)) => Some((seq![c].add(rest), q)),
            },
        }
    }
}

/// The remaining validity of a structurally decoded store: sorted unique
/// chunks, unique files, true fingerprints, the tier's dimension.
pub open spec fn decoded_valid(m: StoreModel) -> bool {
    &&& chunks_sorted(m.chunks)
    &&& files_unique(m.files)
    &&& forall|i: int|
        0 <= i < m.chunks.len() ==> (#[trigger] m.chunks[i]).fingerprint == fnv1a(
            m.chunks[i].content,
            FNV_OFFSET,
        ) && m.chunks[i].embedding.len() == mode_dim(m.meta.mode)
}

/// Decode a snapshot: the store it encodes, or `None` for anything that is
/// not the exact encoding of a well-formed store.
pub open spec fn decode_model(b: Seq<u8>) -> Option<StoreModel> {
    match dec_u64(b, 0) {
        None => None,
        Some((schema, p0)) => if schema == SCHEMA_VERSION as u64 {
            match dec_u64(b, p0) {
                None => None,
                Some((tag, p1)) => match mode_of_tag(tag) {
                    None => None,
                    Some(mode) => match dec_bytes(b, p1) {
                        None => None,
                        Some((root, p2)) => match dec_u64(b, p2) {
                            None => None,
                            Some((nf, p3)) => if nf <= usize::MAX {
                                match dec_files(b, p3, nf as int) {
                                    None => None,
                                    Some((files, p4)) => match dec_u64(b, p4) {
                                        None => None,
                                        Some((nc, p5)) => if nc <= usize::MAX {
                                            match dec_chunks(b, p5, nc as int) {
                                                None => None,
                                                Some((chunks, p6)) => if p6 == b.len() {
                                                    let m = StoreModel {
                                                        root,
                                                        meta: IndexMetadata {
                                                            mode,
                                                            schema: SCHEMA_VERSION,
                                                        },
                                                        files,
                                                        chunks,
                                                    };
                                                    if decoded_valid(m) {
                                                        Some(m)
                                                    } else {
                                                        None
                                                    }
                                                } else {
                                                    None
                                                },
                                            }
                                        } else {
                                            None
                                        },
                                    },
                                }
                            } else {
                                None
                            },
                        },
                    },
                },
            }
        } else {
            None
        },
    }
}

/// Reading a number back where one was written yields it.
pub proof fn lemma_dec_u64_at(b: Seq<u8>, pos: int, x: u64)
    requires
        0 <= pos,
        pos + 8 <= b.len(),
        b.subrange(pos, pos + 8) == enc_u64(x),
    ensures
        dec_u64(b, pos) == Some((x, pos + 8)),
{
    lemma_auto_spec_u64_to_from_le_bytes();
}

/// Reading a byte string back where one was written yields it.
pub proof fn lemma_dec_bytes_at(b: Seq<u8>, pos: int, data: Seq<u8>)
    requires
        0 <= pos,
        data.len() <= usize::MAX,
        pos + 8 + data.len() <= b.len(),
        b.subrange(pos, pos + 8 + data.len()) == enc_bytes(data),
    ensures
        dec_bytes(b, pos) == Some((data, pos + 8 + data.len())),
{
    lemma_auto_spec_u64_to_from_le_bytes();
    let dl: int = data.len() as int;
    let whole = b.subrange(pos, pos + 8 + dl);
    assert(b.subrange(pos, pos + 8) =~= whole.subrange(0, 8));
    assert(whole.subrange(0, 8) =~= enc_u64(data.len() as u64));
    lemma_dec_u64_at(b, pos, data.len() as u64);
    assert(b.subrange(pos + 8, pos + 8 + dl) =~= whole.subrange(8, 8 + dl));
    assert(whole.subrange(8, 8 + dl) =~= data);
}

/// The encoded components take 8 bytes each.
pub proof fn lemma_enc_comps_len(v: Seq<i32>)
    ensures
        enc_comps(v).len() == 8 * v.len(),
    decreases v.len(),
{
    lemma_auto_spec_u64_to_from_le_bytes();
    if v.len() > 0 {
        lemma_enc_comps_len(v.skip(1));
    }
}

/// Reading components back where some were written yields them.
pub proof fn lemma_dec_comps_at(b: Seq<u8>, pos: int, v: Seq<i32>)
    requires
        0 <= pos,
        bounded_vec(v),
        pos + 8 * v.len() <= b.len(),
        b.subrange(pos, pos + 8 * v.len()) == enc_comps(v),
    ensures
        dec_comps(b, pos, v.len() as int) == Some((v, pos + 8 * v.len())),
    decreases v.len(),
{
    lemma_auto_spec_u64_to_from_le_bytes();
    if v.len() > 0 {
        let tl: int = 8 * (v.skip(1).len() as int);
        let whole = b.subrange(pos, pos + 8 * v.len());
        assert(whole =~= enc_comp(v[0]).add(enc_comps(v.skip(1))));
        assert(b.subrange(pos, pos + 8) =~= whole.subrange(0, 8));
        assert(whole.subrange(0, 8) =~= enc_u64((v[0] + COMP_BIAS) as u64));
        lemma_dec_u64_at(b, pos, (v[0] + COMP_BIAS) as u64);
        assert(b.subrange(pos + 8, pos + 8 + tl) =~= whole.subrange(8, 8 + tl));
        assert(whole.subrange(8, 8 + tl) =~= enc_comps(v.skip(1)));
        lemma_dec_comps_at(b, pos + 8, v.skip(1));
        assert(((v[0] + COMP_BIAS) as u64) <= 2 * COMP_BIAS);
        assert((((v[0] + COMP_BIAS) as u64) - COMP_BIAS) as i32 == v[0]);
        assert(seq![v[0]].add(v.skip(1)) =~= v);
    }
}

/// Reading a file record back where one was written yields it.
pub proof fn lemma_dec_file_at(b: Seq<u8>, pos: int, f: FileModel)
    requires
        0 <= pos,
        f.path.len() <= usize::MAX,
        pos + enc_file(f).len() <= b.len(),
        b.subrange(pos, pos + enc_file(f).len()) == enc_file(f),
    ensures
        dec_file(b, pos) == Some((f, pos + enc_file(f).len())),
{
    lemma_auto_spec_u64_to_from_le_bytes();
    let whole = b.subrange(pos, pos + enc_file(f).len());
    let bl: int = 8 + f.path.len() as int;
    assert(b.subrange(pos, pos + bl) =~= whole.subrange(0, bl));
    assert(whole.subrange(0, bl) =~= enc_bytes(f.path));
    lemma_dec_bytes_at(b, pos, f.path);
    assert(b.subrange(pos + bl, pos + bl + 8) =~= whole.subrange(bl, bl + 8));
    assert(whole.subrange(bl, bl + 8) =~= enc_u64(f.fingerprint));
    lemma_dec_u64_at(b, pos + bl, f.fingerprint);
}

/// Reading file records back where some were written yields them.
pub proof fn lemma_dec_files_at(b: Seq<u8>, pos: int, fs: Seq<FileModel>)
    requires
        0 <= pos,
        forall|i: int| 0 <= i < fs.len() ==> (#[trigger] fs[i]).path.len() <= usize::MAX,
        pos + enc_files(fs).len() <= b.len(),
        b.subrange(pos, pos + enc_files(fs).len()) == enc_files(fs),
    ensures
        dec_files(b, pos, fs.len() as int) == Some((fs, pos + enc_files(fs).len())),
    decreases fs.len(),
{
    lemma_auto_spec_u64_to_from_le_bytes();
    if fs.len() > 0 {
        let whole = b.subrange(pos, pos + enc_files(fs).len());
        let l0: int = enc_file(fs[0]).len() as int;
        assert(whole =~= enc_file(fs[0]).add(enc_files(fs.skip(1))));
        assert(b.subrange(pos, pos + l0) =~= whole.subrange(0, l0));
        assert(whole.subrange(0, l0) =~= enc_file(fs[0]));
        lemma_dec_file_at(b, pos, fs[0]);
        let tl: int = enc_files(fs.skip(1)).len() as int;
        assert(b.subrange(pos + l0, pos + l0 + tl) =~= whole.subrange(l0, l0 + tl));
        assert(whole.subrange(l0, l0 + tl) =~= enc_files(fs.skip(1)));
        lemma_dec_files_at(b, pos + l0, fs.skip(1));
        assert(seq![fs[0]].add(fs.skip(1)) =~= fs);
    }
}

/// Reading a chunk back where one was written yields it.
pub proof fn lemma_dec_chunk_at(b: Seq<u8>, pos: int, c: ChunkModel)
    requires
        0 <= pos,
        c.path.len() <= usize::MAX,
        c.content.len() <= usize::MAX,
        1 <= c.start_line <= c.end_line,
        c.end_line <= usize::MAX,
        bounded_vec(c.embedding),
        c.embedding.len() <= usize::MAX,
        pos + enc_chunk(c).len() <= b.len(),
        b.subrange(pos, pos + enc_chunk(c).len()) == enc_chunk(c),
    ensures
        dec_chunk(b, pos) == Some((c, pos + enc_chunk(c).len())),
{
    lemma_auto_spec_u64_to_from_le_bytes();
    lemma_enc_comps_len(c.embedding);
    let whole = b.subrange(pos, pos + enc_chunk(c).len());
    let l1: int = 8 + c.path.len() as int;
    let l2: int = l1 + 8;
    let l3: int = l2 + 8;
    let l4: int = l3 + 8 + c.content.len() as int;
    let l5: int = l4 + 8;
    let l6: int = l5 + 8;
    let l7: int = l6 + 8 * (c.embedding.len() as int);
    assert(b.subrange(pos, pos + l1) =~= whole.subrange(0, l1));
    assert(whole.subrange(0, l1) =~= enc_bytes(c.path));
    lemma_dec_bytes_at(b, pos, c.path);
    assert(b.subrange(pos + l1, pos + l2) =~= whole.subrange(l1, l2));
    assert(whole.subrange(l1, l2) =~= enc_u64(c.start_line as u64));
    lemma_dec_u64_at(b, pos + l1, c.start_line as u64);
    assert(b.subrange(pos + l2, pos + l3) =~= whole.subrange(l2, l3));
    assert(whole.subrange(l2, l3) =~= enc_u64(c.end_line as u64));
    lemma_dec_u64_at(b, pos + l2, c.end_line as u64);
    assert(b.subrange(pos + l3, pos + l4) =~= whole.subrange(l3, l4));
    assert(whole.subrange(l3, l4) =~= enc_bytes(c.content));
    lemma_dec_bytes_at(b, pos + l3, c.content);
    assert(b.subrange(pos + l4, pos + l5) =~= whole.subrange(l4, l5));
    assert(whole.subrange(l4, l5) =~= enc_u64(c.fingerprint));
    lemma_dec_u64_at(b, pos + l4, c.fingerprint);
    assert(b.subrange(pos + l5, pos + l6) =~= whole.subrange(l5, l6));
    assert(whole.subrange(l5, l6) =~= enc_u64(c.embedding.len() as u64));
    lemma_dec_u64_at(b, pos + l5, c.embedding.len() as u64);
    assert(b.subrange(pos + l6, pos + l7) =~= whole.subrange(l6, l7));
    assert(whole.subrange(l6, l7) =~= enc_comps(c.embedding));
    lemma_dec_comps_at(b, pos + l6, c.embedding);
}

/// Reading chunks back where some were written yields them.
pub proof fn lemma_dec_chunks_at(b: Seq<u8>, pos: int, cs: Seq<ChunkModel>)
    requires
        0 <= pos,
        forall|i: int|
            0 <= i < cs.len() ==> (#[trigger] cs[i]).path.len() <= usize::MAX
                && cs[i].content.len() <= usize::MAX && 1 <= cs[i].start_line <= cs[i].end_line
                && cs[i].end_line <= usize::MAX && bounded_vec(cs[i].embedding)
                && cs[i].embedding.len() <= usize::MAX,
        pos + enc_chunks(cs).len() <= b.len(),
        b.subrange(pos, pos + enc_chunks(cs).len()) == enc_chunks(cs),
    ensures
        dec_chunks(b, pos, cs.len() as int) == Some((cs, pos + enc_chunks(cs).len())),
    decreases cs.len(),
{
    lemma_auto_spec_u64_to_from_le_bytes();
    if cs.len() > 0 {
        let whole = b.subrange(pos, pos + enc_chunks(cs).len());
        let l0: int = enc_chunk(cs[0]).len() as int;
        assert(whole =~= enc_chunk(cs[0]).add(enc_chunks(cs.skip(1))));
        assert(b.subrange(pos, pos + l0) =~= whole.subrange(0, l0));
        assert(whole.subrange(0, l0) =~= enc_chunk(cs[0]));
        lemma_dec_chunk_at(b, pos, cs[0]);
        let tl: int = enc_chunks(cs.skip(1)).len() as int;
        assert(b.subrange(pos + l0, pos + l0 + tl) =~= whole.subrange(l0, l0 + tl));
        assert(whole.subrange(l0, l0 + tl) =~= enc_chunks(cs.skip(1)));
        assert forall|i: int|
            0 <= i < cs.skip(1).len() implies (#[trigger] cs.skip(1)[i]).path.len() <= usize::MAX
                && cs.skip(1)[i].content.len() <= usize::MAX && 1 <= cs.skip(1)[i].start_line
                <= cs.skip(1)[i].end_line && cs.skip(1)[i].end_line <= usize::MAX && bounded_vec(
            cs.skip(1)[i].embedding,
        ) && cs.skip(1)[i].embedding.len() <= usize::MAX by {
            assert(cs.skip(1)[i] == cs[i + 1]);
        }
        lemma_dec_chunks_at(b, pos + l0, cs.skip(1));
        assert(seq![cs[0]].add(cs.skip(1)) =~= cs);
    }
}

/// Decoding inverts encoding: a well-formed, machine-sized store read back
/// from its own snapshot is itself, bit for bit.
pub proof fn lemma_codec_round_trip(m: StoreModel)
    requires
        wf_store(m),
        encodable(m),
    ensures
        decode_model(encode_model(m)) == Some(m),
{
    lemma_auto_spec_u64_to_from_le_bytes();
    let b = encode_model(m);
    let l1 = 8int;
    let l2: int = l1 + 8;
    let l3: int = l2 + 8 + m.root.len() as int;
    let l4: int = l3 + 8;
    let l5: int = l4 + enc_files(m.files).len() as int;
    let l6: int = l5 + 8;
    let l7: int = l6 + enc_chunks(m.chunks).len() as int;
    assert(b.len() == l7);
    assert(b.subrange(0, l1) =~= enc_u64(m.meta.schema as u64));
    lemma_dec_u64_at(b, 0, m.meta.schema as u64);
    assert(b.subrange(l1, l2) =~= enc_u64(tag_of_mode(m.meta.mode)));
    lemma_dec_u64_at(b, l1, tag_of_mode(m.meta.mode));
    assert(mode_of_tag(tag_of_mode(m.meta.mode)) == Some(m.meta.mode));
    assert(b.subrange(l2, l3) =~= enc_bytes(m.root));
    lemma_dec_bytes_at(b, l2, m.root);
    assert(b.subrange(l3, l4) =~= enc_u64(m.files.len() as u64));
    lemma_dec_u64_at(b, l3, m.files.len() as u64);
    assert(b.subrange(l4, l5) =~= enc_files(m.files));
    lemma_dec_files_at(b, l4, m.files);
    assert(b.subrange(l5, l6) =~= enc_u64(m.chunks.len() as u64));
    lemma_dec_u64_at(b, l5, m.chunks.len() as u64);
    assert(b.subrange(l6, l7) =~= enc_chunks(m.chunks));
    assert forall|i: int|
        0 <= i < m.chunks.len() implies (#[trigger] m.chunks[i]).path.len() <= usize::MAX
            && m.chunks[i].content.len() <= usize::MAX && 1 <= m.chunks[i].start_line
            <= m.chunks[i].end_line && m.chunks[i].end_line <= usize::MAX && bounded_vec(
        m.chunks[i].embedding,
    ) && m.chunks[i].embedding.len() <= usize::MAX by {
        assert(wf_chunk(m.chunks[i], mode_dim(m.meta.mode)));
    }
    lemma_dec_chunks_at(b, l6, m.chunks);
    assert(decoded_valid(m)) by {
        assert forall|i: int|
            0 <= i < m.chunks.len() implies (#[trigger] m.chunks[i]).fingerprint == fnv1a(
            m.chunks[i].content,
            FNV_OFFSET,
        ) && m.chunks[i].embedding.len() == mode_dim(m.meta.mode) by {
            assert(wf_chunk(m.chunks[i], mode_dim(m.meta.mode)));
        }
    }
    assert(decode_model(b) == Some(m));
}

/// Append a slice.
fn push_slice(out: &mut Vec<u8>, s: &[u8])
    ensures
        final(out)@ == old(out)@ + s@,
{
    let mut i: usize = 0;
    while i < s.len()
        invariant
            i <= s@.len(),
            out@ == old(out)@ + s@.take(i as int),
        decreases s@.len() - i,
    {
        out.push(s[i]);
        proof {
            assert(old(out)@ + s@.take(i as int + 1) =~= (old(out)@ + s@.take(i as int)).push(
                s@[i as int],
            ));
        }
        i = i + 1;
    }
    proof {
        assert(s@.take(s@.len() as int) =~= s@);
    }
}

/// Append a number, little-endian.
fn push_u64(out: &mut Vec<u8>, x: u64)
    ensures
        final(out)@ == old(out)@ + enc_u64(x),
{
    let b = u64_to_le_bytes(x);
    push_slice(out, b.as_slice());
}

/// Append a length-prefixed byte string.
fn push_bytes_field(out: &mut Vec<u8>, data: &[u8])
    ensures
        final(out)@ == old(out)@ + enc_bytes(data@),
{
    push_u64(out, data.len() as u64);
    push_slice(out, data);
    proof {
        assert(old(out)@ + enc_bytes(data@) =~= out@);
    }
}

/// Append the components of the vector from index `i` on.
fn push_comps_from(out: &mut Vec<u8>, v: &Vec<i32>, i: usize)
    requires
        i <= v@.len(),
        bounded_vec(v@),
    ensures
        final(out)@ == old(out)@ + enc_comps(v@.skip(i as int)),
    decreases v@.len() - i,
{
    if i < v.len() {
        let c = v[i];
        let biased: u64 = ((c as i64) + 10000) as u64;
        push_u64(out, biased);
        push_comps_from(out, v, i + 1);
        proof {
            assert(v@.skip(i as int)[0] == v@[i as int]);
            assert(v@.skip(i as int).skip(1) =~= v@.skip(i as int + 1));
            assert(biased == (v@[i as int] + COMP_BIAS) as u64);
            assert(old(out)@ + enc_comps(v@.skip(i as int)) =~= out@);
        }
    } else {
        proof {
            assert(v@.skip(i as int) =~= Seq::<i32>::empty());
            assert(old(out)@ + enc_comps(v@.skip(i as int)) =~= out@);
        }
    }
}

/// Append the file table from index `i` on.
fn push_files_from(out: &mut Vec<u8>, files: &Vec<FileEntry>, i: usize)
    requires
        i <= files@.len(),
    ensures
        final(out)@ == old(out)@ + enc_files(
            files@.map_values(|f: FileEntry| f@).skip(i as int),
        ),
    decreases files@.len() - i,
{
    let ghost fm = files@.map_values(|f: FileEntry| f@);
    if i < files.len() {
        let f = &files[i];
        push_bytes_field(out, f.path.as_slice());
        push_u64(out, f.fingerprint);
        push_files_from(out, files, i + 1);
        proof {
            assert(fm.skip(i as int)[0] == fm[i as int]);
            assert(fm.skip(i as int).skip(1) =~= fm.skip(i as int + 1));
            assert(old(out)@ + enc_files(fm.skip(i as int)) =~= out@);
        }
    } else {
        proof {
            assert(fm.skip(i as int) =~= Seq::<FileModel>::empty());
            assert(old(out)@ + enc_files(fm.skip(i as int)) =~= out@);
        }
    }
}

/// Append one chunk.
fn push_chunk(out: &mut Vec<u8>, c: &Chunk)
    requires
        bounded_vec(c@.embedding),
    ensures
        final(out)@ == old(out)@ + enc_chunk(c@),
{
    push_bytes_field(out, c.path.as_slice());
    push_u64(out, c.start_line as u64);
    push_u64(out, c.end_line as u64);
    push_bytes_field(out, c.content.as_slice());
    push_u64(out, c.fingerprint);
    push_u64(out, c.embedding.len() as u64);
    push_comps_from(out, &c.embedding, 0);
    proof {
        assert(c@.embedding.skip(0) =~= c@.embedding);
        assert(old(out)@ + enc_chunk(c@) =~= out@);
    }
}

/// Append the chunk table from index `i` on.
fn push_chunks_from(out: &mut Vec<u8>, chunks: &Vec<Chunk>, i: usize)
    requires
        i <= chunks@.len(),
        forall|k: int| 0 <= k < chunks@.len() ==> bounded_vec((#[trigger] chunks@[k])@.embedding),
    ensures
        final(out)@ == old(out)@ + enc_chunks(
            chunks@.map_values(|c: Chunk| c@).skip(i as int),
        ),
    decreases chunks@.len() - i,
{
    let ghost cm = chunks@.map_values(|c: Chunk| c@);
    if i < chunks.len() {
        push_chunk(out, &chunks[i]);
        push_chunks_from(out, chunks, i + 1);
        proof {
            assert(cm.skip(i as int)[0] == cm[i as int]);
            assert(cm.skip(i as int).skip(1) =~= cm.skip(i as int + 1));
            assert(old(out)@ + enc_chunks(cm.skip(i as int)) =~= out@);
        }
    } else {
        proof {
            assert(cm.skip(i as int) =~= Seq::<ChunkModel>::empty());
            assert(old(out)@ + enc_chunks(cm.skip(i as int)) =~= out@);
        }
    }
}

/// Serialize a store into one snapshot byte string.
pub fn encode_store(store: &VectorStore) -> (out: Vec<u8>)
    requires
        store.wf(),
    ensures
        out@ == encode_model(store@),
{
    let mut out: Vec<u8> = Vec::new();
    push_u64(&mut out, SCHEMA_VERSION as u64);
    let tag: u64 = match store.meta.mode {
        EmbedMode::Fast => 1,
        EmbedMode::Balanced => 2,
        EmbedMode::Code => 3,
        EmbedMode::Hybrid => 4,
    };
    push_u64(&mut out, tag);
    push_bytes_field(&mut out, store.root.as_slice());
    push_u64(&mut out, store.files.len() as u64);
    push_files_from(&mut out, &store.files, 0);
    push_u64(&mut out, store.chunks.len() as u64);
    proof {
        assert forall|k: int|
            0 <= k < store.chunks@.len() implies bounded_vec(
            (#[trigger] store.chunks@[k])@.embedding,
        ) by {
            assert(crate::store::wf_chunk(store@.chunks[k], mode_dim(store@.meta.mode)));
        }
    }
    push_chunks_from(&mut out, &store.chunks, 0);
    proof {
        assert(store@.files.skip(0) =~= store@.files);
        assert(store@.chunks.skip(0) =~= store@.chunks);
        assert(out@ =~= encode_model(store@));
    }
    out
}

/// Read a number, little-endian.
fn read_u64(b: &[u8], pos: usize) -> (r: Option<(u64, usize)>)
    ensures
        match r {
            Some(v) => dec_u64(b@, pos as int) == Some((v.0, v.1 as int)),
            None => dec_u64(b@, pos as int) is None,
        },
{
    if b.len() >= 8 && pos <= b.len() - 8 {
        let s = vstd::slice::slice_subrange(b, pos, pos + 8);
        let x = u64_from_le_bytes(s);
        Some((x, pos + 8))
    } else {
        None
    }
}

/// Read a length-prefixed byte string.
fn read_bytes(b: &[u8], pos: usize) -> (r: Option<(Vec<u8>, usize)>)
    ensures
        match r {
            Some(v) => dec_bytes(b@, pos as int) matches Some(sv) && v.0@ == sv.0 && v.1 as int
                == sv.1,
            None => dec_bytes(b@, pos as int) is None,
        },
{
    match read_u64(b, pos) {
        None => None,
        Some((n, p)) => {
            if n <= usize::MAX as u64 {
                let nn = n as usize;
                if nn <= b.len() && p <= b.len() - nn {
                    let data = vstd::slice::slice_to_vec(
                        vstd::slice::slice_subrange(b, p, p + nn),
                    );
                    Some((data, p + nn))
                } else {
                    None
                }
            } else {
                None
            }
        },
    }
}

/// Read `n` vector components.
fn read_comps(b: &[u8], pos: usize, n: usize) -> (r: Option<(Vec<i32>, usize)>)
    ensures
        match r {
            Some(v) => dec_comps(b@, pos as int, n as int) matches Some(sv) && v.0@ == sv.0
                && v.1 as int == sv.1,
            None => dec_comps(b@, pos as int, n as int) is None,
        },
{
    let mut acc: Vec<i32> = Vec::new();
    let mut p: usize = pos;
    let mut i: usize = 0;
    while i < n
        invariant
            i <= n,
            match dec_comps(b@, pos as int, n as int) {
                Some(sv) => dec_comps(b@, p as int, (n - i) as int) matches Some(rv) && sv.0
                    == acc@ + rv.0 && sv.1 == rv.1,
                None => dec_comps(b@, p as int, (n - i) as int) is None,
            },
        decreases n - i,
    {
        match read_u64(b, p) {
            None => {
                return None;
            },
            Some((x, p2)) => {
                if x <= 20000 {
                    acc.push((x as i64 - 10000) as i32);
                    proof {
                        assert(((x - COMP_BIAS) as i32) == acc@[acc@.len() - 1]);
                        match dec_comps(b@, p2 as int, (n - i - 1) as int) {
                            Some(rv) => {
                                assert(acc@.drop_last() + (seq![(x - COMP_BIAS) as i32].add(
                                    rv.0,
                                )) =~= acc@ + rv.0);
                            },
                            None => {},
                        }
                    }
                    p = p2;
                    i = i + 1;
                } else {
                    return None;
                }
            },
        }
    }
    proof {
        assert(acc@ + Seq::<i32>::empty() =~= acc@);
    }
    Some((acc, p))
}

/// Read `n` file records.
fn read_files(b: &[u8], pos: usize, n: usize) -> (r: Option<(Vec<FileEntry>, usize)>)
    ensures
        match r {
            Some(v) => dec_files(b@, pos as int, n as int) matches Some(sv) && v.0@.map_values(
                |f: FileEntry| f@,
            ) == sv.0 && v.1 as int == sv.1,
            None => dec_files(b@, pos as int, n as int) is None,
        },
{
    let mut acc: Vec<FileEntry> = Vec::new();
    let mut p: usize = pos;
    let mut i: usize = 0;
    while i < n
        invariant
            i <= n,
            match dec_files(b@, pos as int, n as int) {
                Some(sv) => dec_files(b@, p as int, (n - i) as int) matches Some(rv) && sv.0
                    == acc@.map_values(|f: FileEntry| f@) + rv.0 && sv.1 == rv.1,
                None => dec_files(b@, p as int, (n - i) as int) is None,
            },
        decreases n - i,
    {
        let ghost am = acc@.map_values(|f: FileEntry| f@);
        match read_bytes(b, p) {
            None => {
                return None;
            },
            Some((path, p1)) => {
                match read_u64(b, p1) {
                    None => {
                        return None;
                    },
                    Some((fp, p2)) => {
                        let ghost fmodel = FileModel { path: path@, fingerprint: fp };
                        acc.push(FileEntry { path, fingerprint: fp });
                        proof {
                            assert(acc@.map_values(|f: FileEntry| f@) =~= am.push(fmodel));
                            match dec_files(b@, p2 as int, (n - i - 1) as int) {
                                Some(rv) => {
                                    assert(am + (seq![fmodel].add(rv.0)) =~= am.push(fmodel)
                                        + rv.0);
                                },
                                None => {},
                            }
                        }
                        p = p2;
                        i = i + 1;
                    },
                }
            },
        }
    }
    proof {
        assert(acc@.map_values(|f: FileEntry| f@) + Seq::<FileModel>::empty() =~= acc@.map_values(
            |f: FileEntry| f@,
        ));
    }
    Some((acc, p))
}

/// Read one chunk.
fn read_chunk(b: &[u8], pos: usize) -> (r: Option<(Chunk, usize)>)
    ensures
        match r {
            Some(v) => dec_chunk(b@, pos as int) matches Some(sv) && v.0@ == sv.0 && v.1 as int
                == sv.1,
            None => dec_chunk(b@, pos as int) is None,
        },
{
    let (path, p1) = match read_bytes(b, pos) {
        None => {
            return None;
        },
        Some(v) => v,
    };
    let (start, p2) = match read_u64(b, p1) {
        None => {
            return None;
        },
        Some(v) => v,
    };
    let (end, p3) = match read_u64(b, p2) {
        None => {
            return None;
        },
        Some(v) => v,
    };
    if !(1 <= start && start <= end && end <= usize::MAX as u64) {
        return None;
    }
    let (content, p4) = match read_bytes(b, p3) {
        None => {
            return None;
        },
        Some(v) => v,
    };
    let (fp, p5) = match read_u64(b, p4) {
        None => {
            return None;
        },
        Some(v) => v,
    };
    let (en, p6) = match read_u64(b, p5) {
        None => {
            return None;
        },
        Some(v) => v,
    };
    if !(en <= usize::MAX as u64) {
        return None;
    }
    let (emb, p7) = match read_comps(b, p6, en as usize) {
        None => {
            return None;
        },
        Some(v) => v,
    };
    let c = Chunk {
        path,
        start_line: start as usize,
        end_line: end as usize,
        content,
        fingerprint: fp,
        embedding: emb,
    };
    Some((c, p7))
}

/// Read `n` chunks.
fn read_chunks(b: &[u8], pos: usize, n: usize) -> (r: Option<(Vec<Chunk>, usize)>)
    ensures
        match r {
            Some(v) => dec_chunks(b@, pos as int, n as int) matches Some(sv) && v.0@.map_values(
                |c: Chunk| c@,
            ) == sv.0 && v.1 as int == sv.1,
            None => dec_chunks(b@, pos as int, n as int) is None,
        },
{
    let mut acc: Vec<Chunk> = Vec::new();
    let mut p: usize = pos;
    let mut i: usize = 0;
    while i < n
        invariant
            i <= n,
            match dec_chunks(b@, pos as int, n as int) {
                Some(sv) => dec_chunks(b@, p as int, (n - i) as int) matches Some(rv) && sv.0
                    == acc@.map_values(|c: Chunk| c@) + rv.0 && sv.1 == rv.1,
                None => dec_chunks(b@, p as int, (n - i) as int) is None,
            },
        decreases n - i,
    {
        let ghost am = acc@.map_values(|c: Chunk| c@);
        match read_chunk(b, p) {
            None => {
                return None;
            },
            Some((c, p2)) => {
                let ghost cmodel = c@;
                acc.push(c);
                proof {
                    assert(acc@.map_values(|c2: Chunk| c2@) =~= am.push(cmodel));
                    match dec_chunks(b@, p2 as int, (n - i - 1) as int) {
                        Some(rv) => {
                            assert(am + (seq![cmodel].add(rv.0)) =~= am.push(cmodel) + rv.0);
                        },
                        None => {},
                    }
                }
                p = p2;
                i = i + 1;
            },
        }
    }
    proof {
        assert(acc@.map_values(|c: Chunk| c@) + Seq::<ChunkModel>::empty() =~= acc@.map_values(
            |c: Chunk| c@,
        ));
    }
    Some((acc, p))
}

/// Components read back from a snapshot are bounded.
proof fn lemma_dec_comps_bounded(b: Seq<u8>, pos: int, n: int)
    requires
        dec_comps(b, pos, n) is Some,
    ensures
        bounded_vec(opt_val(dec_comps(b, pos, n))),
        opt_val(dec_comps(b, pos, n)).len() == if n >= 0 {
            n
        } else {
            0
        },
    decreases n,
{
    if n > 0 {
        let x = opt_val(dec_u64(b, pos));
        let p = opt_pos(dec_u64(b, pos));
        lemma_dec_comps_bounded(b, p, n - 1);
        let rest = opt_val(dec_comps(b, p, n - 1));
        assert forall|k: int|
            0 <= k < opt_val(dec_comps(b, pos, n)).len() implies -10000 <= #[trigger] opt_val(dec_comps(
            b,
            pos,
            n,
        ))[k] <= 10000 by {
            if k > 0 {
                assert(opt_val(dec_comps(b, pos, n))[k] == rest[k - 1]);
            }
        }
    }
}

/// Chunks read back from a snapshot have ordered lines and bounded vectors.
proof fn lemma_dec_chunks_fields(b: Seq<u8>, pos: int, n: int)
    requires
        dec_chunks(b, pos, n) is Some,
    ensures
        forall|k: int|
            0 <= k < opt_val(dec_chunks(b, pos, n)).len() ==> 1 <= (#[trigger] opt_val(dec_chunks(
                b,
                pos,
                n,
            ))[k]).start_line <= opt_val(dec_chunks(b, pos, n))[k].end_line && bounded_vec(
                opt_val(dec_chunks(b, pos, n))[k].embedding,
            ),
    decreases n,
{
    if n > 0 {
        let c = opt_val(dec_chunk(b, pos));
        let p = opt_pos(dec_chunk(b, pos));
        lemma_dec_chunks_fields(b, p, n - 1);
        let rest = opt_val(dec_chunks(b, p, n - 1));
        let en = dec_u64(
            b,
            opt_pos(dec_u64(b, opt_pos(dec_bytes(b, opt_pos(dec_u64(b, opt_pos(dec_u64(b, opt_pos(dec_bytes(b, pos)))))))))),
        );
        assert(bounded_vec(c.embedding)) by {
            let p1 = opt_pos(dec_bytes(b, pos));
            let p2 = opt_pos(dec_u64(b, p1));
            let p3 = opt_pos(dec_u64(b, p2));
            let p4 = opt_pos(dec_bytes(b, p3));
            let p5 = opt_pos(dec_u64(b, p4));
            let p6 = opt_pos(dec_u64(b, p5));
            let cnt = opt_val(dec_u64(b, p5));
            lemma_dec_comps_bounded(b, p6, cnt as int);
        }
        assert forall|k: int|
            0 <= k < opt_val(dec_chunks(b, pos, n)).len() implies 1 <= (#[trigger] opt_val(dec_chunks(
            b,
            pos,
            n,
        ))[k]).start_line <= opt_val(dec_chunks(b, pos, n))[k].end_line && bounded_vec(
            opt_val(dec_chunks(b, pos, n))[k].embedding,
        ) by {
            if k > 0 {
                assert(opt_val(dec_chunks(b, pos, n))[k] == rest[k - 1]);
            } else {
                assert(opt_val(dec_chunks(b, pos, n))[0] == c);
            }
        }
    }
}

/// Deserialize a snapshot. Anything that is not the exact encoding of a
/// well-formed store — wrong schema or tier, corrupt or trailing bytes,
/// out-of-order chunks, stale fingerprints, a foreign vector dimension —
/// yields `None`: the absent-store signal that forces a reindex.
#[verifier::rlimit(100)]
pub fn decode_store(bytes: &[u8]) -> (r: Option<VectorStore>)
    ensures
        r is Some <==> decode_model(bytes@) is Some,
        r matches Some(s) ==> s@ == decode_model(bytes@)->0 && s.wf(),
{
    let (schema, p0) = match read_u64(bytes, 0) {
        None => {
            return None;
        },
        Some(v) => v,
    };
    if schema != SCHEMA_VERSION as u64 {
        return None;
    }
    let (tag, p1) = match read_u64(bytes, p0) {
        None => {
            return None;
        },
        Some(v) => v,
    };
    let mode: EmbedMode = if tag == 1 {
        EmbedMode::Fast
    } else if tag == 2 {
        EmbedMode::Balanced
    } else if tag == 3 {
        EmbedMode::Code
    } else if tag == 4 {
        EmbedMode::Hybrid
    } else {
        return None;
    };
    let (root, p2) = match read_bytes(bytes, p1) {
        None => {
            return None;
        },
        Some(v) => v,
    };
    let (nf, p3) = match read_u64(bytes, p2) {
        None => {
            return None;
        },
        Some(v) => v,
    };
    if nf > usize::MAX as u64 {
        return None;
    }
    let (files, p4) = match read_files(bytes, p3, nf as usize) {
        None => {
            return None;
        },
        Some(v) => v,
    };
    let (nc, p5) = match read_u64(bytes, p4) {
        None => {
            return None;
        },
        Some(v) => v,
    };
    if nc > usize::MAX as u64 {
        return None;
    }
    let (chunks, p6) = match read_chunks(bytes, p5, nc as usize) {
        None => {
            return None;
        },
        Some(v) => v,
    };
    if p6 != bytes.len() {
        return None;
    }
    let s = VectorStore {
        root,
        meta: IndexMetadata { mode, schema: SCHEMA_VERSION },
        files,
        chunks,
    };
    let ghost m = s@;
    proof {
        assert(mode_of_tag(tag) == Some(mode));
        assert(decode_model(bytes@) == if decoded_valid(m) {
            Some(m)
        } else {
            Option::<StoreModel>::None
        });
    }
    // Validation: the snapshot must describe a well-formed store.
    let dim = crate::embed::embed_dim(mode);
    let ncx = s.chunks.len();
    let mut i: usize = 0;
    while i < ncx
        invariant
            i <= ncx,
            ncx == s.chunks@.len(),
            m == s@,
            dec_chunks(bytes@, p5 as int, nc as int) is Some,
            opt_val(dec_chunks(bytes@, p5 as int, nc as int)) == s@.chunks,
            decode_model(bytes@) == (if decoded_valid(m) {
                Option::<StoreModel>::Some(m)
            } else {
                Option::<StoreModel>::None
            }),
            dim as int == mode_dim(s@.meta.mode),
            forall|k: int|
                0 <= k < i ==> (#[trigger] s@.chunks[k]).fingerprint == fnv1a(
                    s@.chunks[k].content,
                    FNV_OFFSET,
                ) && s@.chunks[k].embedding.len() == mode_dim(s@.meta.mode),
            forall|a: int, b2: int| 0 <= a < b2 < i ==> chunk_before(
                #[trigger] s@.chunks[a],
                #[trigger] s@.chunks[b2],
            ),
        decreases ncx - i,
    {
        let c = &s.chunks[i];
        if fingerprint64(c.content.as_slice()) != c.fingerprint {
            proof {
                assert(m.chunks[i as int].fingerprint != fnv1a(
                    m.chunks[i as int].content,
                    FNV_OFFSET,
                ));
                assert(!decoded_valid(m));
            }
            return None;
        }
        if c.embedding.len() != dim {
            proof {
                assert(m.chunks[i as int].embedding.len() != mode_dim(m.meta.mode));
                assert(!decoded_valid(m));
            }
            return None;
        }
        if i > 0 {
            let prev = &s.chunks[i - 1];
            if !crate::store::chunk_key_less(prev, c.path.as_slice(), c.start_line) {
                proof {
                    assert(!chunk_before(m.chunks[i as int - 1], m.chunks[i as int]));
                    assert(!decoded_valid(m));
                }
                return None;
            }
            proof {
                assert(chunk_before(s@.chunks[i as int - 1], s@.chunks[i as int]));
                assert forall|a: int, b2: int|
                    0 <= a < b2 < i + 1 implies chunk_before(
                    #[trigger] s@.chunks[a],
                    #[trigger] s@.chunks[b2],
                ) by {
                    if b2 == i {
                        if a < i - 1 {
                            assert(chunk_before(s@.chunks[a], s@.chunks[i as int - 1]));
                            crate::store::lemma_key_lt_trans(
                                s@.chunks[a].path,
                                s@.chunks[a].start_line,
                                s@.chunks[i as int - 1].path,
                                s@.chunks[i as int - 1].start_line,
                                s@.chunks[i as int].path,
                                s@.chunks[i as int].start_line,
                            );
                        }
                    }
                }
            }
        }
        i = i + 1;
    }
    let nfx = s.files.len();
    let mut a: usize = 0;
    while a < nfx
        invariant
            a <= nfx,
            nfx == s.files@.len(),
            m == s@,
            decode_model(bytes@) == (if decoded_valid(m) {
                Option::<StoreModel>::Some(m)
            } else {
                Option::<StoreModel>::None
            }),
            forall|x: int, y: int|
                0 <= x < y < s@.files.len() && x < a ==> (#[trigger] s@.files[x]).path != (
                #[trigger] s@.files[y]).path,
        decreases nfx - a,
    {
        let mut b2: usize = a + 1;
        while b2 < nfx
            invariant
                a < b2 <= nfx,
                nfx == s.files@.len(),
                m == s@,
                decode_model(bytes@) == (if decoded_valid(m) {
                Option::<StoreModel>::Some(m)
            } else {
                Option::<StoreModel>::None
            }),
                forall|y: int| a < y < b2 ==> (#[trigger] s@.files[y]).path != s@.files[a as int].path,
            decreases nfx - b2,
        {
            if crate::order::bytes_equal(
                s.files[a].path.as_slice(),
                s.files[b2].path.as_slice(),
            ) {
                proof {
                    assert(m.files[a as int].path == m.files[b2 as int].path);
                    assert(!files_unique(m.files));
                    assert(!decoded_valid(m));
                }
                return None;
            }
            b2 = b2 + 1;
        }
        a = a + 1;
    }
    proof {
        assert(chunks_sorted(s@.chunks));
        assert(files_unique(s@.files));
        assert(decoded_valid(m));
        assert(s.wf()) by {
            lemma_dec_chunks_fields(bytes@, p5 as int, nc as int);
            assert forall|k: int|
                0 <= k < s@.chunks.len() implies wf_chunk(
                #[trigger] s@.chunks[k],
                mode_dim(s@.meta.mode),
            ) by {
                assert(s@.chunks[k] == opt_val(dec_chunks(bytes@, p5 as int, nc as int))[k]);
            }
        }
    }
    Some(s)
}

} // verus!

