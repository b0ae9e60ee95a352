//! End-to-end checks of the search engine: chunking, embedding, the store,
//! incremental sync, the codec, and ranked search.

use searchgrep::chunker::{chunk_text, MAX_CHUNK_LINES};
use searchgrep::codec::{decode_store, encode_store};
use searchgrep::embed::{embed_bytes, embed_dim, EmbedError, EmbedMode};
use searchgrep::fingerprint::fingerprint64;
use searchgrep::parser::{detect_language, find_line_number, simplify_params};
use searchgrep::search::{search, SearchError, MAX_RESULTS};
use searchgrep::server::McpServer;
use searchgrep::store::VectorStore;
use searchgrep::parser::SymbolParser;
use searchgrep::sync::{plan_removals, sync_file, sync_remove_file};
use searchgrep::watch::Debouncer;

fn lines(n: usize, salt: &str) -> Vec<u8> {
    let mut out = String::new();
    for i in 0..n {
        out.push_str(&format!("{} filler content number {}\n", salt, i));
    }
    out.into_bytes()
}

#[test]
fn fingerprint_known_values() {
    // FNV-1a 64-bit test vectors.
    assert_eq!(fingerprint64(b""), 0xcbf29ce484222325);
    assert_eq!(fingerprint64(b"a"), 0xaf63dc4c8601ec8c);
    assert_eq!(fingerprint64(b"foobar"), 0x85944171f73967e8);
}

#[test]
fn chunker_empty_file_yields_no_chunks() {
    assert_eq!(chunk_text(b"").len(), 0);
}

#[test]
fn chunker_small_file_is_one_chunk() {
    let content = b"one\ntwo\nthree\n";
    let chunks = chunk_text(content);
    assert_eq!(chunks.len(), 1);
    assert_eq!(chunks[0].start_line, 1);
    assert_eq!(chunks[0].end_line, 3);
    assert_eq!(chunks[0].content, content.to_vec());
}

#[test]
fn chunker_splits_with_overlap() {
    let content = lines(40, "word");
    let chunks = chunk_text(&content);
    assert_eq!(chunks.len(), 3);
    assert_eq!((chunks[0].start_line, chunks[0].end_line), (1, 20));
    assert_eq!((chunks[1].start_line, chunks[1].end_line), (19, 38));
    assert_eq!((chunks[2].start_line, chunks[2].end_line), (37, 40));
    // Deterministic: identical input, identical boundaries and bytes.
    let again = chunk_text(&content);
    assert_eq!(again.len(), chunks.len());
    for (a, b) in chunks.iter().zip(again.iter()) {
        assert_eq!(a.start_line, b.start_line);
        assert_eq!(a.end_line, b.end_line);
        assert_eq!(a.content, b.content);
    }
    assert!(MAX_CHUNK_LINES == 20);
}

#[test]
fn embedding_dimensions_and_determinism() {
    let text = b"retry backoff policy";
    for mode in [EmbedMode::Fast, EmbedMode::Balanced, EmbedMode::Code, EmbedMode::Hybrid] {
        let v = embed_bytes(text, mode).unwrap();
        assert_eq!(v.len(), embed_dim(mode));
        let w = embed_bytes(text, mode).unwrap();
        assert_eq!(v, w);
    }
    // The hybrid vector is the balanced and code vectors concatenated.
    let b = embed_bytes(text, EmbedMode::Balanced).unwrap();
    let c = embed_bytes(text, EmbedMode::Code).unwrap();
    let h = embed_bytes(text, EmbedMode::Hybrid).unwrap();
    let mut cat = b.clone();
    cat.extend_from_slice(&c);
    assert_eq!(h, cat);
}

#[test]
fn embedding_rejects_termless_input() {
    assert_eq!(embed_bytes(b"", EmbedMode::Balanced).unwrap_err(), EmbedError::Unencodable);
    assert_eq!(embed_bytes(b"!!! ++ ..", EmbedMode::Fast).unwrap_err(), EmbedError::Unencodable);
}

#[test]
fn store_upsert_get_remove() {
    let mut store = VectorStore::new(b"/repo".to_vec(), EmbedMode::Balanced);
    assert_eq!(store.chunk_count(), 0);
    let r = sync_file(&mut store, b"m.rs", b"fn main() { run(); }\n");
    assert!(!r.unchanged && !r.skipped);
    assert_eq!(store.chunk_count(), 1);
    assert!(store.get_chunk(b"m.rs", 1).is_some());
    assert!(store.get_chunk(b"m.rs", 2).is_none());
    assert!(store.remove_chunk(b"m.rs", 1));
    assert_eq!(store.chunk_count(), 0);
}

#[test]
fn resync_unchanged_file_embeds_nothing() {
    let mut store = VectorStore::new(b"/repo".to_vec(), EmbedMode::Balanced);
    let content = lines(30, "alpha");
    let first = sync_file(&mut store, b"a.rs", &content);
    assert!(!first.unchanged);
    assert!(first.embedded > 0);
    let n = store.chunk_count();
    let again = sync_file(&mut store, b"a.rs", &content);
    assert!(again.unchanged);
    assert_eq!(again.embedded, 0);
    assert_eq!(store.chunk_count(), n);
    // Identical chunk keys survive the idle re-sync.
    assert!(store.get_chunk(b"a.rs", 1).is_some());
    assert!(store.get_chunk(b"a.rs", 19).is_some());
}

#[test]
fn editing_one_line_recreates_only_covering_chunks() {
    let mut store = VectorStore::new(b"/repo".to_vec(), EmbedMode::Balanced);
    let before = lines(40, "beta");
    sync_file(&mut store, b"b.rs", &before);
    let first_before = store.get_chunk(b"b.rs", 1).unwrap();
    let emb1 = first_before.embedding.clone();
    let fp1 = first_before.fingerprint;
    let third_fp_before = store.get_chunk(b"b.rs", 37).unwrap().fingerprint;
    // Change only the last line (inside the third chunk, lines 37..40).
    let mut after = lines(39, "beta");
    after.extend_from_slice(b"beta changed tail line\n");
    let rep = sync_file(&mut store, b"b.rs", &after);
    assert!(!rep.unchanged);
    assert_eq!(rep.embedded, 1);
    let first_after = store.get_chunk(b"b.rs", 1).unwrap();
    assert_eq!(first_after.fingerprint, fp1);
    assert_eq!(first_after.embedding, emb1);
    let third = store.get_chunk(b"b.rs", 37).unwrap();
    assert_ne!(third.fingerprint, third_fp_before);
}

#[test]
fn shrinking_a_file_drops_stale_chunks() {
    let mut store = VectorStore::new(b"/repo".to_vec(), EmbedMode::Fast);
    sync_file(&mut store, b"s.rs", &lines(40, "gamma"));
    assert_eq!(store.chunk_count(), 3);
    sync_file(&mut store, b"s.rs", &lines(5, "gamma"));
    assert_eq!(store.chunk_count(), 1);
    assert!(store.get_chunk(b"s.rs", 19).is_none());
    assert!(store.get_chunk(b"s.rs", 37).is_none());
}

#[test]
fn oversized_and_binary_files_are_skipped() {
    let mut store = VectorStore::new(b"/repo".to_vec(), EmbedMode::Fast);
    let big = vec![b'x'; 262145];
    let r = sync_file(&mut store, b"big.rs", &big);
    assert!(r.skipped);
    assert_eq!(store.chunk_count(), 0);
    let r2 = sync_file(&mut store, b"bin.rs", b"ab\0cd");
    assert!(r2.skipped);
    assert_eq!(store.chunk_count(), 0);
}

#[test]
fn removing_a_file_removes_all_its_chunks() {
    let mut store = VectorStore::new(b"/repo".to_vec(), EmbedMode::Balanced);
    sync_file(&mut store, b"a.rs", &lines(40, "delta"));
    sync_file(&mut store, b"b.rs", &lines(5, "epsilon"));
    let total = store.chunk_count();
    assert_eq!(total, 4);
    let removed = sync_remove_file(&mut store, b"a.rs");
    assert_eq!(removed, 3);
    assert_eq!(store.chunk_count(), total - 3);
    assert!(store.get_chunk(b"a.rs", 1).is_none());
    assert!(store.get_chunk(b"b.rs", 1).is_some());
    assert!(store.file_fingerprint(b"a.rs").is_none());
    assert!(store.file_fingerprint(b"b.rs").is_some());
}

#[test]
fn plan_removals_lists_only_vanished_files() {
    let mut store = VectorStore::new(b"/repo".to_vec(), EmbedMode::Fast);
    sync_file(&mut store, b"keep.rs", b"fn keep() {}\n");
    sync_file(&mut store, b"gone.rs", b"fn gone() {}\n");
    let present = vec![b"keep.rs".to_vec()];
    let gone = plan_removals(&store, &present);
    assert_eq!(gone, vec![b"gone.rs".to_vec()]);
}

#[test]
fn snapshot_round_trip_is_bit_identical() {
    for mode in [EmbedMode::Fast, EmbedMode::Balanced, EmbedMode::Code, EmbedMode::Hybrid] {
        let mut store = VectorStore::new(b"/repo".to_vec(), mode);
        sync_file(&mut store, b"x.rs", &lines(25, "zeta"));
        sync_file(&mut store, b"y.rs", b"fn y() { helper(); }\n");
        let bytes = encode_store(&store);
        let loaded = decode_store(&bytes).expect("snapshot must decode");
        assert_eq!(encode_store(&loaded), bytes);
        assert_eq!(loaded.chunk_count(), store.chunk_count());
        assert_eq!(loaded.file_count(), store.file_count());
        assert_eq!(loaded.root, store.root);
        let a = store.get_chunk(b"x.rs", 1).unwrap();
        let b = loaded.get_chunk(b"x.rs", 1).unwrap();
        assert_eq!(a.content, b.content);
        assert_eq!(a.embedding, b.embedding);
        assert_eq!(a.fingerprint, b.fingerprint);
    }
}

#[test]
fn corrupt_snapshots_read_as_absent() {
    let mut store = VectorStore::new(b"/repo".to_vec(), EmbedMode::Balanced);
    sync_file(&mut store, b"x.rs", b"fn x() {}\n");
    let bytes = encode_store(&store);
    assert!(decode_store(&bytes[..bytes.len() - 1]).is_none());
    let mut tampered = bytes.clone();
    let last = tampered.len() - 1;
    tampered[last] ^= 0x01;
    assert!(decode_store(&tampered).is_none());
    assert!(decode_store(b"").is_none());
    // A snapshot from a different schema version is absent as well.
    let mut wrong_schema = bytes.clone();
    wrong_schema[0] ^= 0x40;
    assert!(decode_store(&wrong_schema).is_none());
}

#[test]
fn search_on_empty_store_is_not_indexed() {
    let store = VectorStore::new(b"/repo".to_vec(), EmbedMode::Balanced);
    let qe = embed_bytes(b"anything", EmbedMode::Balanced).unwrap();
    let err = search(&store, &qe, b"anything", 10, b"").unwrap_err();
    assert_eq!(err, SearchError::NotIndexed);
}

#[test]
fn search_error_variants() {
    let mut store = VectorStore::new(b"/repo".to_vec(), EmbedMode::Balanced);
    sync_file(&mut store, b"x.rs", b"fn x() {}\n");
    let qe = embed_bytes(b"x", EmbedMode::Balanced).unwrap();
    // A query with no terms.
    assert_eq!(search(&store, &qe, b"!!!", 10, b"").unwrap_err(), SearchError::EmptyQuery);
    // A vector from a different tier.
    let wrong = embed_bytes(b"x", EmbedMode::Fast).unwrap();
    assert_eq!(search(&store, &wrong, b"x", 10, b"").unwrap_err(), SearchError::DimensionMismatch);
}

#[test]
fn search_results_sorted_and_bounded() {
    let mut store = VectorStore::new(b"/repo".to_vec(), EmbedMode::Balanced);
    for i in 0..30 {
        let path = format!("src/file{:02}.rs", i).into_bytes();
        let body = format!("fn handler_{}() {{ parse request input {} }}\n", i, i).into_bytes();
        sync_file(&mut store, &path, &body);
    }
    let q = b"parse request input";
    let qe = embed_bytes(q, EmbedMode::Balanced).unwrap();
    let results = search(&store, &qe, q, 7, b"").unwrap();
    assert!(results.len() <= 7);
    for w in results.windows(2) {
        assert!(w[0].score >= w[1].score);
        if w[0].score == w[1].score {
            assert!((&w[0].path, w[0].start_line) <= (&w[1].path, w[1].start_line));
        }
    }
    // The hard ceiling holds even for huge requests.
    let all = search(&store, &qe, q, 10000, b"").unwrap();
    assert!(all.len() <= MAX_RESULTS);
}

#[test]
fn search_scope_filters_by_path_prefix() {
    let mut store = VectorStore::new(b"/repo".to_vec(), EmbedMode::Balanced);
    sync_file(&mut store, b"lib/a.rs", b"fn network_socket_open() {}\n");
    sync_file(&mut store, b"bin/b.rs", b"fn network_socket_close() {}\n");
    let q = b"network socket";
    let qe = embed_bytes(q, EmbedMode::Balanced).unwrap();
    let results = search(&store, &qe, q, 10, b"lib/").unwrap();
    assert!(!results.is_empty());
    for r in &results {
        assert!(r.path.starts_with(b"lib/"));
    }
}

#[test]
fn phrase_file_outranks_unrelated_file() {
    // Index a directory with `a.py` (40 unrelated lines) and `b.py`
    // (5 lines holding the phrase); the phrase query must rank `b.py`
    // strictly above every `a.py` chunk.
    let mut store = VectorStore::new(b"/repo".to_vec(), EmbedMode::Balanced);
    let a_content = lines(40, "unrelated widget drawing");
    let mut b_content = Vec::new();
    b_content.extend_from_slice(b"def handle():\n");
    b_content.extend_from_slice(b"    # retry backoff policy\n");
    b_content.extend_from_slice(b"    wait = 1\n");
    b_content.extend_from_slice(b"    wait = wait * 2\n");
    b_content.extend_from_slice(b"    return wait\n");
    sync_file(&mut store, b"a.py", &a_content);
    sync_file(&mut store, b"b.py", &b_content);
    assert!(store.get_chunk(b"a.py", 1).is_some());
    assert_eq!(store.get_chunk(b"b.py", 1).unwrap().end_line, 5);
    let q = b"retry backoff policy";
    let qe = embed_bytes(q, EmbedMode::Balanced).unwrap();
    let results = search(&store, &qe, q, 10, b"").unwrap();
    assert!(!results.is_empty());
    assert_eq!(results[0].path, b"b.py".to_vec());
    let b_score = results[0].score;
    for r in results.iter().skip(1) {
        if r.path == b"a.py".to_vec() {
            assert!(r.score < b_score);
        }
    }
}

#[test]
fn detect_language_by_extension() {
    assert_eq!(detect_language("src/core/parser.rs"), "rust");
    assert_eq!(detect_language("web/app.tsx"), "typescript");
    assert_eq!(detect_language("scripts/tool.py"), "python");
    assert_eq!(detect_language("cmd/main.go"), "go");
    assert_eq!(detect_language("kernel/module.c"), "c");
    assert_eq!(detect_language("README"), "unknown");
    assert_eq!(detect_language("dir.with.dots/file"), "unknown");
}

#[test]
fn find_line_number_counts_newlines() {
    let content = b"first\nsecond\nthird\n";
    assert_eq!(find_line_number(content, 0), 1);
    assert_eq!(find_line_number(content, 5), 1);
    assert_eq!(find_line_number(content, 6), 2);
    assert_eq!(find_line_number(content, 13), 3);
    assert_eq!(find_line_number(content, content.len()), 4);
}

#[test]
fn simplify_params_trims_and_collapses() {
    assert_eq!(simplify_params("  a: u32, b: u32  "), "a: u32, b: u32");
    assert_eq!(simplify_params("x"), "x");
    assert_eq!(simplify_params(""), "");
    let long = "alpha: VeryLongTypeName, beta: VeryLongTypeName, gamma: VeryLongTypeName, delta: VeryLongTypeName";
    assert_eq!(simplify_params(long), "4...");
}

#[test]
fn server_connection_state() {
    let mut s = McpServer::new();
    assert!(!s.initialized);
    s.mark_initialized();
    assert!(s.initialized);
    let d = McpServer::default();
    assert!(!d.initialized);
}

#[test]
fn debouncer_collapses_bursts() {
    let mut d = Debouncer::new(100);
    d.record(b"a.rs", 10);
    d.record(b"a.rs", 30);
    d.record(b"b.rs", 40);
    assert_eq!(d.pending_count(), 2);
    // Nothing is due before the latest deadline of the burst.
    assert_eq!(d.take_due(120), Vec::<Vec<u8>>::new());
    assert_eq!(d.pending_count(), 2);
    // At 130 the a.rs burst (deadline 130) is due; b.rs (140) is not.
    let due = d.take_due(130);
    assert_eq!(due, vec![b"a.rs".to_vec()]);
    assert_eq!(d.pending_count(), 1);
    let rest = d.take_due(u64::MAX);
    assert_eq!(rest, vec![b"b.rs".to_vec()]);
    assert_eq!(d.pending_count(), 0);
}

#[test]
fn debouncer_deadline_saturates() {
    let mut d = Debouncer::new(u64::MAX);
    d.record(b"x.rs", 5);
    assert_eq!(d.take_due(u64::MAX), vec![b"x.rs".to_vec()]);
}

#[test]
fn symbol_parser_extracts_rust_symbols() {
    let parser = SymbolParser::new().expect("patterns must compile");
    let source = "\
use std::fmt;

pub fn add(a: u32, b: u32) -> u32 {
    a + b
}

struct Point {
    x: u32,
}

enum Shape {
    Dot,
}

trait Draw {
    fn draw(&self);
}
";
    let parsed = parser.parse_file("src/lib.rs", source);
    assert_eq!(parsed.path, "src/lib.rs");
    assert_eq!(parsed.language, "rust");
    assert_eq!(parsed.imports, vec!["std::fmt".to_string()]);
    let names: Vec<&str> = parsed.symbols.iter().map(|s| s.name.as_str()).collect();
    assert!(names.contains(&"add"));
    assert!(names.contains(&"Point"));
    assert!(names.contains(&"Shape"));
    assert!(names.contains(&"Draw"));
    let add = parsed.symbols.iter().find(|s| s.name == "add").unwrap();
    assert_eq!(add.id, "src/lib.rs:add");
    assert_eq!(add.line, 2);
    assert_eq!(add.signature, "add(a: u32, b: u32) -> u32");
    let point = parsed.symbols.iter().find(|s| s.name == "Point").unwrap();
    assert_eq!(point.signature, "struct Point");
    assert_eq!(point.line, 6);
}

#[test]
fn symbol_parser_extracts_python_symbols() {
    let parser = SymbolParser::new().unwrap();
    let source = "\
from os import path
import sys

def handler(event, context):
    return event

class Worker(Base):
    pass
";
    let parsed = parser.parse_file("jobs/worker.py", source);
    assert_eq!(parsed.language, "python");
    assert_eq!(parsed.lines, 8);
    assert_eq!(parsed.imports, vec!["os".to_string(), "sys".to_string()]);
    let f = parsed.symbols.iter().find(|s| s.name == "handler").unwrap();
    assert_eq!(f.line, 4);
    assert_eq!(f.signature, "def handler(event, context) -> None");
    let c = parsed.symbols.iter().find(|s| s.name == "Worker").unwrap();
    assert_eq!(c.signature, "class Worker(Base)");
}

#[test]
fn symbol_parser_handles_go_and_unknown() {
    let parser = SymbolParser::new().unwrap();
    let go = "\
func Serve(addr string) error {
    return nil
}

type Config struct {
}
";
    let parsed = parser.parse_file("cmd/main.go", go);
    assert_eq!(parsed.language, "go");
    let f = parsed.symbols.iter().find(|s| s.name == "Serve").unwrap();
    assert_eq!(f.signature, "func Serve(addr string) error");
    let c = parsed.symbols.iter().find(|s| s.name == "Config").unwrap();
    assert_eq!(c.signature, "type Config struct");
    let none = parser.parse_file("notes.txt", "just some text\n");
    assert_eq!(none.language, "unknown");
    assert!(none.symbols.is_empty());
    assert!(none.imports.is_empty());
}

#[test]
fn simplify_params_trims_unicode_whitespace() {
    assert_eq!(simplify_params("\u{A0}x: u8\u{2003}"), "x: u8");
    assert_eq!(simplify_params("\u{3000}\u{85}"), "");
}
