//! Splitting file text into bounded, addressable chunks.
//!
//! A file's bytes are cut at newline boundaries into regions of at most
//! `MAX_CHUNK_LINES` lines, with `CHUNK_OVERLAP` lines repeated at each
//! boundary so context is preserved. Chunking is a pure function of the
//! bytes: identical input always yields identical boundaries, which is what
//! chunk-id stability and incremental updates rest on. An empty file yields
//! zero chunks.

use vstd::prelude::*;

verus! {

/// Upper bound on the number of lines in one chunk.
pub const MAX_CHUNK_LINES: usize = 20;

/// Number of lines repeated between consecutive chunks of one file.
pub const CHUNK_OVERLAP: usize = 2;

/// Files larger than this many bytes are skipped by the synchronizer.
pub const MAX_FILE_BYTES: usize = 262144;

/// A region of a file in 0-based line indices; `end` is exclusive.
#[derive(Clone, Copy, PartialEq, Eq, Structural)]
pub struct LineRange {
    pub start: usize,
    pub end: usize,
}

/// One chunk of a file's text: 1-based inclusive line numbers and the raw
/// bytes of those lines (with their newlines).
pub struct ChunkText {
    pub start_line: usize,
    pub end_line: usize,
    pub content: Vec<u8>,
}

/// Indices of all newline bytes of `s`, in increasing order.
pub open spec fn newline_positions(s: Seq<u8>) -> Seq<int>
    decreases s.len(),
{
    if s.len() == 0 {
        Seq::empty()
    } else if s.last() == 10u8 {
        newline_positions(s.drop_last()).push(s.len() - 1)
    } else {
        newline_positions(s.drop_last())
    }
}

/// Number of lines of `s`: one per newline, plus a trailing line when the
/// file does not end in a newline. The empty file has zero lines.
pub open spec fn line_count(s: Seq<u8>) -> int {
    newline_positions(s).len() + if s.len() > 0 && s.last() != 10u8 {
        1int
    } else {
        0int
    }
}

/// Byte offset at which 0-based line `k` begins.
pub open spec fn line_start_offset(s: Seq<u8>, k: int) -> int {
    if k == 0 {
        0
    } else {
        newline_positions(s)[k - 1] + 1
    }
}

/// Byte offset one past the end of 0-based line `k` (its newline included).
pub open spec fn line_end_offset(s: Seq<u8>, k: int) -> int {
    if k < newline_positions(s).len() {
        newline_positions(s)[k] + 1
    } else {
        s.len() as int
    }
}

/// Newline positions are in range, strictly increasing, and mark newlines.
pub proof fn lemma_newline_positions(s: Seq<u8>)
    ensures
        forall|i: int|
            0 <= i < newline_positions(s).len() ==> 0 <= #[trigger] newline_positions(s)[i]
                < s.len() && s[newline_positions(s)[i]] == 10u8,
        forall|i: int, j: int|
            0 <= i < j < newline_positions(s).len() ==> newline_positions(s)[i]
                < newline_positions(s)[j],
        newline_positions(s).len() <= s.len(),
        line_count(s) <= s.len(),
    decreases s.len(),
{
    if s.len() > 0 {
        lemma_newline_positions(s.drop_last());
    }
}

/// The chunk regions of a file of `n` lines, beginning at line `start`.
pub open spec fn regions_from(start: usize, n: usize) -> Seq<LineRange>
    decreases n - start,
{
    if start >= n {
        Seq::empty()
    } else {
        let end = if start + MAX_CHUNK_LINES <= n {
            (start + MAX_CHUNK_LINES) as usize
        } else {
            n
        };
        if end == n {
            seq![LineRange { start, end }]
        } else {
            seq![LineRange { start, end }].add(
                regions_from((end - CHUNK_OVERLAP) as usize, n),
            )
        }
    }
}

/// All chunk regions of a file of `n` lines.
pub open spec fn chunk_regions(n: usize) -> Seq<LineRange> {
    regions_from(0, n)
}

/// Every region is within the file and nonempty, and region starts increase.
pub proof fn lemma_regions_from(start: usize, n: usize)
    ensures
        forall|i: int|
            0 <= i < regions_from(start, n).len() ==> start <= (
            #[trigger] regions_from(start, n)[i]).start < regions_from(start, n)[i].end <= n,
        forall|i: int, j: int|
            0 <= i < j < regions_from(start, n).len() ==> regions_from(start, n)[i].start
                < regions_from(start, n)[j].start,
    decreases n - start,
{
    if start < n {
        let end = if start + MAX_CHUNK_LINES <= n {
            (start + MAX_CHUNK_LINES) as usize
        } else {
            n
        };
        let r0 = LineRange { start, end };
        if end == n {
            assert(regions_from(start, n) =~= seq![r0]);
        } else {
            let next = (end - CHUNK_OVERLAP) as usize;
            lemma_regions_from(next, n);
            let tail = regions_from(next, n);
            assert(regions_from(start, n) =~= seq![r0].add(tail));
            assert(start < next);
            assert forall|i: int|
                0 <= i < regions_from(start, n).len() implies start <= (
            #[trigger] regions_from(start, n)[i]).start < regions_from(start, n)[i].end
                <= n by {
                if i > 0 {
                    assert(regions_from(start, n)[i] == tail[i - 1]);
                }
            }
            assert forall|i: int, j: int|
                0 <= i < j < regions_from(start, n).len() implies regions_from(start, n)[i].start
                < regions_from(start, n)[j].start by {
                if i > 0 {
                    assert(regions_from(start, n)[i] == tail[i - 1]);
                }
                assert(regions_from(start, n)[j] == tail[j - 1]);
            }
        }
    }
}

/// The bytes of region `r` of file `s`.
pub open spec fn region_content(s: Seq<u8>, r: LineRange) -> Seq<u8> {
    s.subrange(line_start_offset(s, r.start as int), line_end_offset(s, r.end - 1))
}

/// What `chunk_text` returns for file bytes `s`, as a relation on models.
pub open spec fn is_chunking_of(s: Seq<u8>, out: Seq<ChunkText>) -> bool {
    let rs = chunk_regions(line_count(s) as usize);
    &&& out.len() == rs.len()
    &&& forall|i: int|
        0 <= i < rs.len() ==> (#[trigger] out[i]).start_line == rs[i].start + 1
            && out[i].end_line == rs[i].end && out[i].content@ == region_content(s, rs[i])
}

/// Positions of newline bytes of `bytes`, in increasing order.
fn newline_index(bytes: &[u8]) -> (pos: Vec<usize>)
    ensures
        pos@.len() == newline_positions(bytes@).len(),
        forall|i: int| 0 <= i < pos@.len() ==> pos@[i] as int == newline_positions(bytes@)[i],
{
    let mut pos: Vec<usize> = Vec::new();
    let mut i: usize = 0;
    while i < bytes.len()
        invariant
            i <= bytes@.len(),
            pos@.len() == newline_positions(bytes@.take(i as int)).len(),
            forall|k: int|
                0 <= k < pos@.len() ==> pos@[k] as int == newline_positions(
                    bytes@.take(i as int),
                )[k],
        decreases bytes@.len() - i,
    {
        proof {
            assert(bytes@.take(i + 1).drop_last() =~= bytes@.take(i as int));
            assert(bytes@.take(i + 1).last() == bytes@[i as int]);
        }
        if bytes[i] == 10u8 {
            pos.push(i);
        }
        i = i + 1;
    }
    proof {
        assert(bytes@.take(bytes@.len() as int) =~= bytes@);
    }
    pos
}

/// Split `bytes` into chunks: deterministic boundaries of at most
/// `MAX_CHUNK_LINES` lines with `CHUNK_OVERLAP` lines of context repeated at
/// each boundary. An empty input yields no chunks.
pub fn chunk_text(bytes: &[u8]) -> (out: Vec<ChunkText>)
    ensures
        is_chunking_of(bytes@, out@),
{
    let pos = newline_index(bytes);
    proof {
        lemma_newline_positions(bytes@);
    }
    let trailing: usize = if bytes.len() > 0 && bytes[bytes.len() - 1] != 10u8 {
        1
    } else {
        0
    };
    let n: usize = pos.len() + trailing;
    proof {
        assert(n as int == line_count(bytes@));
        lemma_regions_from(0, n);
    }
    let ghost rs = chunk_regions(n);
    let mut out: Vec<ChunkText> = Vec::new();
    let mut start: usize = 0;
    while start < n
        invariant
            n as int == line_count(bytes@),
            n <= bytes@.len(),
            bytes@.len() <= usize::MAX,
            pos@.len() == newline_positions(bytes@).len(),
            forall|i: int| 0 <= i < pos@.len() ==> pos@[i] as int == newline_positions(bytes@)[i],
            forall|i: int|
                0 <= i < newline_positions(bytes@).len() ==> 0 <= #[trigger] newline_positions(
                    bytes@,
                )[i] < bytes@.len(),
            forall|i: int, j: int|
                0 <= i < j < newline_positions(bytes@).len() ==> newline_positions(bytes@)[i]
                    < newline_positions(bytes@)[j],
            rs == chunk_regions(n),
            start <= n || out@.len() == rs.len(),
            rs =~= out@.map_values(
                |c: ChunkText| LineRange { start: (c.start_line - 1) as usize, end: c.end_line },
            ).add(regions_from(start, n)),
            forall|i: int|
                0 <= i < out@.len() ==> (#[trigger] out@[i]).start_line == rs[i].start + 1
                    && out@[i].end_line == rs[i].end && out@[i].content@ == region_content(
                    bytes@,
                    rs[i],
                ),
        decreases n - start,
    {
        let end: usize = if MAX_CHUNK_LINES <= n && start <= n - MAX_CHUNK_LINES {
            start + MAX_CHUNK_LINES
        } else {
            n
        };
        proof {
            assert(start < end <= n);
            assert(start > 0 ==> start - 1 < pos@.len());
            if start > 0 {
                assert(pos@[start - 1] as int == newline_positions(bytes@)[start - 1]);
                assert(newline_positions(bytes@)[start - 1] < bytes@.len());
            }
            if end - 1 < pos@.len() {
                assert(pos@[end - 1] as int == newline_positions(bytes@)[end - 1]);
                assert(newline_positions(bytes@)[end - 1] < bytes@.len());
            }
        }
        let o1: usize = if start == 0 {
            0
        } else {
            pos[start - 1] + 1
        };
        let o2: usize = if end - 1 < pos.len() {
            pos[end - 1] + 1
        } else {
            bytes.len()
        };
        proof {
            assert(o1 as int == line_start_offset(bytes@, start as int));
            assert(o2 as int == line_end_offset(bytes@, end - 1));
            assert(o1 <= o2);
        }
        let content = vstd::slice::slice_to_vec(vstd::slice::slice_subrange(bytes, o1, o2));
        let r = LineRange { start, end };
        out.push(ChunkText { start_line: start + 1, end_line: end, content });
        proof {
            let mapped = out@.map_values(
                |c: ChunkText| LineRange { start: (c.start_line - 1) as usize, end: c.end_line },
            );
            assert(mapped =~= mapped.take(mapped.len() - 1).push(r));
            assert(mapped.take(mapped.len() - 1) =~= out@.drop_last().map_values(
                |c: ChunkText| LineRange { start: (c.start_line - 1) as usize, end: c.end_line },
            ));
        }
        if end == n {
            start = n;
            proof {
                assert(regions_from(n, n) =~= Seq::<LineRange>::empty());
            }
        } else {
            start = end - CHUNK_OVERLAP;
        }
    }
    proof {
        assert(regions_from(start, n) =~= Seq::<LineRange>::empty());
        assert(out@.map_values(
            |c: ChunkText| LineRange { start: (c.start_line - 1) as usize, end: c.end_line },
        ).len() == out@.len());
    }
    out
}

/// The bytes of 0-based line `k`, its newline included.
pub open spec fn line_text(s: Seq<u8>, k: int) -> Seq<u8> {
    s.subrange(line_start_offset(s, k), line_end_offset(s, k))
}

/// Lines `a` up to `b`, laid end to end.
pub open spec fn concat_lines(s: Seq<u8>, a: int, b: int) -> Seq<u8>
    decreases b - a,
{
    if a >= b {
        Seq::empty()
    } else {
        line_text(s, a).add(concat_lines(s, a + 1, b))
    }
}

/// Line offsets are ordered, lie within the file, and adjacent lines abut.
pub proof fn lemma_line_offsets(s: Seq<u8>, k: int)
    requires
        0 <= k < line_count(s),
    ensures
        0 <= line_start_offset(s, k) <= line_end_offset(s, k) <= s.len(),
        k < line_count(s) - 1 ==> line_end_offset(s, k) == line_start_offset(s, k + 1),
{
    lemma_newline_positions(s);
    let nl = newline_positions(s);
    if k > 0 {
        assert(0 <= nl[k - 1] < s.len());
        if k < nl.len() {
            assert(nl[k - 1] < nl[k]);
        }
    }
    if k < nl.len() {
        assert(0 <= nl[k] < s.len());
    }
}

/// A span of whole lines is those lines laid end to end.
pub proof fn lemma_span_lines(s: Seq<u8>, a: int, b: int)
    requires
        0 <= a < b <= line_count(s),
    ensures
        s.subrange(line_start_offset(s, a), line_end_offset(s, b - 1)) == concat_lines(s, a, b),
    decreases b - a,
{
    lemma_line_offsets(s, a);
    lemma_line_offsets(s, b - 1);
    if b == a + 1 {
        assert(s.subrange(line_start_offset(s, a), line_end_offset(s, a)) =~= line_text(
            s,
            a,
        ).add(concat_lines(s, a + 1, b)));
    } else {
        lemma_span_lines(s, a + 1, b);
        assert(line_end_offset(s, a) == line_start_offset(s, a + 1));
        lemma_line_offsets(s, a + 1);
        assert(line_start_offset(s, a + 1) <= line_end_offset(s, b - 1)) by {
            lemma_span_monotone(s, a + 1, b - 1);
        }
        assert(s.subrange(line_start_offset(s, a), line_end_offset(s, b - 1)) =~= s.subrange(
            line_start_offset(s, a),
            line_end_offset(s, a),
        ).add(s.subrange(line_start_offset(s, a + 1), line_end_offset(s, b - 1))));
    }
}

/// Offsets grow with the line index.
pub proof fn lemma_span_monotone(s: Seq<u8>, a: int, b: int)
    requires
        0 <= a <= b < line_count(s),
    ensures
        line_start_offset(s, a) <= line_end_offset(s, b),
    decreases b - a,
{
    lemma_line_offsets(s, a);
    if a < b {
        lemma_span_monotone(s, a + 1, b);
        lemma_line_offsets(s, a + 1);
    }
}

/// Lines equal on a span make the spans' bytes equal.
pub proof fn lemma_concat_lines_equal(s1: Seq<u8>, s2: Seq<u8>, a: int, b: int)
    requires
        forall|k: int| a <= k < b ==> line_text(s1, k) == line_text(s2, k),
    ensures
        concat_lines(s1, a, b) == concat_lines(s2, a, b),
    decreases b - a,
{
    if a < b {
        lemma_concat_lines_equal(s1, s2, a + 1, b);
    }
}

/// Two files with the same line count whose lines differ only at
/// `edited` have identical bytes in every region that does not cover it.
pub proof fn lemma_region_content_unchanged(s1: Seq<u8>, s2: Seq<u8>, r: LineRange, edited: int)
    requires
        line_count(s1) == line_count(s2),
        0 <= edited < line_count(s1),
        forall|k: int|
            0 <= k < line_count(s1) && k != edited ==> line_text(s1, k) == line_text(s2, k),
        r.start < r.end <= line_count(s1),
        !(r.start <= edited < r.end),
    ensures
        region_content(s1, r) == region_content(s2, r),
{
    lemma_span_lines(s1, r.start as int, r.end as int);
    lemma_span_lines(s2, r.start as int, r.end as int);
    assert forall|k: int| r.start <= k < r.end implies line_text(s1, k) == line_text(s2, k) by {
        assert(k != edited);
    }
    lemma_concat_lines_equal(s1, s2, r.start as int, r.end as int);
}

} // verus!

