use codex_agentic::analytics::Analytics;
use codex_agentic::chunk::{back_n_lines, chunk_blanklines, chunk_lines, line_span, offset_to_line};
use codex_agentic::digest::sha256_hex;
use codex_agentic::globpat::{glob_to_regex, should_skip};
use codex_agentic::ignore::{
    apply_ignore_edits, load_ignore_patterns, render_ignore_patterns, sorted_dedup, DEFAULT_IGNORE,
};
use codex_agentic::maintain::{indexing_disabled, rebuild_wanted, relative_age_from_secs, should_spawn_first_run};
use codex_agentic::manifest::{build_manifest, check_integrity, render_manifest, render_status};
use codex_agentic::metafile::{find_meta_row, parse_meta_lines, render_meta_lines, MetaRow};
use codex_agentic::scan::{language_for, looks_binary, text_if_textual, within_size_limit};
use codex_agentic::tsparse::{chunk_auto, chunk_python_treesitter, chunk_rust_treesitter};
use codex_agentic::vecfile::{decode_vectors_file, encode_vectors_file};

#[test]
fn detects_binary_png() {
    let png: &[u8] = b"\x89PNG\r\n\x1a\nrest";
    assert!(looks_binary(png));
}

#[test]
fn nul_fraction_under_a_tenth_is_text() {
    let mut buf = vec![b'a'; 91];
    buf.extend(std::iter::repeat(0u8).take(9));
    assert!(!looks_binary(&buf));
    let mut heavy = vec![b'a'; 80];
    heavy.extend(std::iter::repeat(0u8).take(20));
    assert!(looks_binary(&heavy));
}

#[test]
fn textual_content_is_decoded() {
    assert_eq!(text_if_textual(b"hello").as_deref(), Some("hello"));
    assert!(text_if_textual(b"\xff\xfe").is_none());
}

#[test]
fn chunk_lines_overlap() {
    let text = (1..=120).map(|i| format!("line{}\n", i)).collect::<String>();
    let chunks = chunk_lines(&text, 40, 10);
    assert!(!chunks.is_empty());
    if chunks.len() > 1 {
        let (_s0, e0, _) = chunks[0].clone();
        let (s1, _e1, _) = chunks[1].clone();
        let l0_end = offset_to_line(&text, e0);
        let l1_start = offset_to_line(&text, s1);
        assert!(l1_start <= l0_end);
    }
}

#[test]
fn blankline_chunks_cover_blocks() {
    let text = "fn a() {}\n\nfn b() {}\n\nfn c() {}\n";
    let chunks = chunk_blanklines(text, 1, 0);
    assert!(chunks.len() >= 2);
    assert_eq!(chunks[0].0, 0);
    let last = chunks.last().unwrap();
    assert_eq!(last.1, text.len());
    assert_eq!(line_span(text, 0, text.len()), 6);
    assert_eq!(back_n_lines(text, text.len(), 2), text.len() - 11);
}

#[test]
fn preview_keeps_first_eight_lines() {
    let text = (1..=20).map(|i| format!("l{}\n", i)).collect::<String>();
    let chunks = chunk_lines(&text, 100, 0);
    assert_eq!(chunks.len(), 1);
    let pv = &chunks[0].2;
    assert!(pv.starts_with("l1\nl2\n"));
    assert_eq!(pv.lines().count(), 8);
}

#[test]
fn rust_sources_chunk_structurally() {
    let text = "fn hello() {}\n\nfn world() {}\n";
    let by_tree = chunk_rust_treesitter(text, 80, 0);
    assert!(by_tree.is_some());
    let chunks = by_tree.unwrap();
    // The two item ranges coalesce into one chunk spanning both functions.
    assert_eq!(chunks.len(), 1);
    assert_eq!((chunks[0].0, chunks[0].1), (0, 28));
    assert_eq!(chunks[0].2, "fn hello() {}\n\nfn world() {}");
    let auto = chunk_auto(text, 80, 0, "rust");
    assert_eq!(auto.len(), 1);
    assert_eq!((auto[0].0, auto[0].1), (0, 28));
    // Text with no item nodes falls back to blank-line chunks.
    assert!(chunk_rust_treesitter("// just a comment\n", 80, 0).is_none());
}

#[test]
fn python_sources_chunk_structurally() {
    let text = "def hello():\n    pass\n";
    let by_tree = chunk_python_treesitter(text, 80, 0);
    assert!(by_tree.is_some());
    let plain = chunk_auto("just words\n\nmore words\n", 80, 0, "text");
    assert!(!plain.is_empty());
}

#[test]
fn vectors_file_roundtrips() {
    let ids = vec![0u64, 1, 2];
    let data: Vec<u32> = (0..6u32).map(|x| f32::to_bits(x as f32 / 10.0)).collect();
    let bytes = encode_vectors_file(2, &ids, &data);
    let (dim, ids2, data2) = decode_vectors_file(&bytes).unwrap();
    assert_eq!(dim, 2);
    assert_eq!(ids2, ids);
    assert_eq!(data2, data);
    let mut truncated = bytes.clone();
    truncated.pop();
    assert!(decode_vectors_file(&truncated).is_none());
}

#[test]
fn meta_lines_roundtrip() {
    let rows = vec![
        MetaRow {
            id: 0,
            path: "a \"quoted\" path.rs".to_string(),
            start: 1,
            end: 10,
            lang: "rust".to_string(),
            sha256: "aa".to_string(),
            preview: "fn a() {}\n\tdone".to_string(),
        },
        MetaRow {
            id: 1,
            path: "b.py".to_string(),
            start: 2,
            end: 3,
            lang: "python".to_string(),
            sha256: "bb".to_string(),
            preview: String::new(),
        },
    ];
    let bytes = render_meta_lines(&rows);
    let parsed = parse_meta_lines(&bytes).unwrap();
    assert_eq!(parsed.len(), 2);
    assert_eq!(parsed[0].path, rows[0].path);
    assert_eq!(parsed[0].preview, rows[0].preview);
    assert_eq!(parsed[1].id, 1);
    let again = render_meta_lines(&parsed);
    assert_eq!(again, bytes);
    assert!(parse_meta_lines(b"not a meta file\n").is_none());
}

#[test]
fn checksums_verify_after_build() {
    let vec_bytes = encode_vectors_file(2, &vec![0u64], &vec![1u32, 2u32]);
    let meta_bytes = render_meta_lines(&vec![]);
    let m = build_manifest(
        "bge-small".to_string(),
        2,
        "auto".to_string(),
        160,
        32,
        "/repo".to_string(),
        None,
        1,
        1,
        &vec_bytes,
        &meta_bytes,
        "2024-01-01T00:00:00Z".to_string(),
    );
    assert!(check_integrity(&m, &vec_bytes, &meta_bytes));
    let mut broken = vec_bytes.clone();
    broken.pop();
    assert!(!check_integrity(&m, &broken, &meta_bytes));
    let doc = String::from_utf8(render_manifest(&m)).unwrap();
    assert!(doc.contains("\"index_version\": 1"));
    assert!(doc.contains("\"metric\": \"cosine\""));
    assert!(doc.contains("\"chunks\": 1"));
}

#[test]
fn status_reports_model_and_vectors() {
    let vec_bytes = encode_vectors_file(384, &vec![], &vec![]);
    let m = build_manifest(
        "bge-small".to_string(),
        384,
        "auto".to_string(),
        160,
        32,
        "/repo".to_string(),
        None,
        2,
        2,
        &vec_bytes,
        &vec![],
        "2024-01-01T00:00:00Z".to_string(),
    );
    let mut a = Analytics::new();
    a.record_query(true, "2024-01-01T00:00:01Z".to_string());
    let text =
        String::from_utf8(render_status(&m, &a, 1234, &"now".to_string())).unwrap();
    assert!(text.contains("Index: Ready"));
    assert!(text.contains("Model: bge-small (384-D)"));
    assert!(text.contains("Vectors: 2"));
    assert!(text.contains("queries=1, hit_ratio=1.00"));
}

#[test]
fn known_sha256_values() {
    assert_eq!(
        sha256_hex(b""),
        "e3b0c44298fc1c149afbf4c8996fb92427ae41e4649b934ca495991b7852b855"
    );
    assert_eq!(
        sha256_hex(b"abc"),
        "ba7816bf8f01cfea414140de5dae2223b00361a396177a9cb410ff61f20015ad"
    );
}

#[test]
fn glob_translation_and_matching() {
    assert_eq!(glob_to_regex("docs/*"), "^docs/.*$");
    assert_eq!(glob_to_regex("a.b?c"), "^a\\.b.c$");
    let pats = vec!["docs/*".to_string()];
    assert!(should_skip("docs/readme.md", &pats, false, 10));
    assert!(!should_skip("src/readme.md", &pats, false, 10));
}

#[test]
fn five_mib_boundary() {
    let exactly = 5 * 1024 * 1024;
    assert!(within_size_limit(exactly));
    assert!(!within_size_limit(exactly + 1));
    assert!(!should_skip("a.rs", &vec![], false, exactly));
    assert!(should_skip("a.rs", &vec![], false, exactly + 1));
    assert!(should_skip("a.rs", &vec![], true, 1));
}

#[test]
fn language_tags_from_extensions() {
    assert_eq!(language_for("src/a.rs"), "rust");
    assert_eq!(language_for("a.tsx"), "typescript");
    assert_eq!(language_for("x/y.jsx"), "javascript");
    assert_eq!(language_for("m.py"), "python");
    assert_eq!(language_for("README"), "text");
    assert_eq!(language_for(".gitignore"), "text");
}

#[test]
fn ignore_rules_lifecycle() {
    let pats = load_ignore_patterns(DEFAULT_IGNORE);
    assert!(pats.contains(&".git".to_string()));
    assert!(!pats.iter().any(|p| p.starts_with('#')));
    let edited = apply_ignore_edits(
        &pats,
        &vec!["docs/*".to_string()],
        &vec![".idea".to_string()],
    );
    assert!(edited.contains(&"docs/*".to_string()));
    assert!(!edited.contains(&".idea".to_string()));
    let sorted = sorted_dedup(&edited);
    let rendered = render_ignore_patterns(&sorted);
    assert!(rendered.ends_with('\n'));
    let back = load_ignore_patterns(&rendered);
    assert_eq!(back, sorted);
}

#[test]
fn maintenance_switches() {
    assert!(rebuild_wanted(b"M src/lib.rs\n"));
    assert!(!rebuild_wanted(b""));
    assert!(indexing_disabled(&Some("0".to_string())));
    assert!(indexing_disabled(&Some("off".to_string())));
    assert!(indexing_disabled(&Some("OFF".to_string())));
    assert!(!indexing_disabled(&Some("1".to_string())));
    assert!(!indexing_disabled(&None));
    assert!(should_spawn_first_run(&None, false));
    assert!(!should_spawn_first_run(&None, true));
    assert!(!should_spawn_first_run(&Some("off".to_string()), false));
}

#[test]
fn relative_age_buckets() {
    assert_eq!(relative_age_from_secs(5), "now");
    assert_eq!(relative_age_from_secs(120), "2m ago");
    assert_eq!(relative_age_from_secs(7200), "2h ago");
    assert_eq!(relative_age_from_secs(2 * 86400), "2d ago");
    assert_eq!(relative_age_from_secs(15 * 86400), "2w ago");
}

#[test]
fn meta_rows_are_found_by_id() {
    let rows = vec![
        MetaRow {
            id: 0,
            path: "a.rs".to_string(),
            start: 1,
            end: 2,
            lang: "rust".to_string(),
            sha256: "aa".to_string(),
            preview: String::new(),
        },
        MetaRow {
            id: 7,
            path: "b.rs".to_string(),
            start: 3,
            end: 4,
            lang: "rust".to_string(),
            sha256: "bb".to_string(),
            preview: String::new(),
        },
    ];
    assert_eq!(find_meta_row(&rows, 7), Some(1));
    assert_eq!(find_meta_row(&rows, 3), None);
}
