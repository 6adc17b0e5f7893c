use codex_agentic::analytics::Analytics;
use codex_agentic::query::{
    empty_output, gate_and_select, render_json, render_text, render_xml, sort_hits, xml_escape,
    OutputFormat, RenderedHit,
};
use codex_agentic::report::{compute_inputs_hash, sample_text, title_case, FileEntry};
use codex_agentic::store::VectorStore;
use codex_agentic::vecfile::{decode_vectors_file, encode_vectors_file};
use codex_agentic::maintain::relative_age;
use hnsw_rs::prelude::{DistCosine, Hnsw};

/// An order key whose u32 order agrees with the order of finite floats.
fn score_key(s: f32) -> u32 {
    let b = s.to_bits();
    if s >= 0.0 {
        b | 0x8000_0000
    } else {
        !b
    }
}

#[test]
fn score_keys_preserve_order() {
    assert!(score_key(0.5999999) < score_key(0.60));
    assert!(score_key(-0.25) < score_key(0.0));
    assert!(score_key(0.0) < score_key(0.25));
    assert_eq!(score_key(0.75), score_key(0.75));
}

#[test]
fn confidence_gate_boundary() {
    let threshold = score_key(0.60);
    let gated = sort_hits(&vec![(0usize, score_key(0.5999999))]);
    assert!(gate_and_select(&gated, 8, threshold).is_none());
    let kept = sort_hits(&vec![(0usize, score_key(0.600_000_1)), (1, score_key(0.2))]);
    let got = gate_and_select(&kept, 8, threshold).unwrap();
    assert_eq!(got.len(), 2);
    assert_eq!(got[0].0, 0);
    let exact = sort_hits(&vec![(0usize, score_key(0.60))]);
    assert!(gate_and_select(&exact, 8, threshold).is_some());
}

#[test]
fn empty_index_query_is_a_miss() {
    let hits: Vec<(usize, u32)> = vec![];
    let sorted = sort_hits(&hits);
    assert!(gate_and_select(&sorted, 8, score_key(0.60)).is_none());
    assert_eq!(
        String::from_utf8(empty_output(OutputFormat::Text)).unwrap(),
        "No information exists that matches the request.\n"
    );
    assert_eq!(String::from_utf8(empty_output(OutputFormat::Json)).unwrap(), "[]\n");
    assert_eq!(String::from_utf8(empty_output(OutputFormat::Xml)).unwrap(), "<results/>\n");
    let mut a = Analytics::new();
    a.record_query(false, "t1".to_string());
    assert_eq!(a.queries, 1);
    assert_eq!(a.misses, 1);
    assert_eq!(a.hits, 0);
    a.record_query(true, "t2".to_string());
    assert_eq!(a.queries, 2);
    assert_eq!(a.hits, 1);
    assert_eq!(a.misses, 1);
}

#[test]
fn hits_sort_by_score_then_input_order() {
    let hits = vec![
        (0usize, score_key(0.2)),
        (1usize, score_key(0.9)),
        (2usize, score_key(0.9)),
        (3usize, score_key(0.5)),
    ];
    let sorted = sort_hits(&hits);
    let order: Vec<usize> = sorted.iter().map(|h| h.0).collect();
    assert_eq!(order, vec![1, 2, 3, 0]);
}

fn hit(rank: u64, snippet: Option<Vec<&str>>) -> RenderedHit {
    RenderedHit {
        rank,
        score_str: "0.707".to_string(),
        path: "dir/a&b<c.rs".to_string(),
        start: 3,
        end: 9,
        lang: "rust".to_string(),
        snippet: snippet.map(|v| v.into_iter().map(|s| s.to_string()).collect()),
    }
}

#[test]
fn text_output_shape() {
    let out = render_text(&vec![hit(0, Some(vec!["fn a() {}", "x"]))], false, 6, true);
    let s = String::from_utf8(out).unwrap();
    assert!(s.starts_with("[0] 0.707 dir/a&b<c.rs:3-9 (rust)\n"));
    assert!(s.contains("     3 | + fn a() {}\n"));
    assert!(s.contains("     4 | + x\n"));
    assert!(s.ends_with("---\n"));
    let bare = render_text(&vec![hit(0, Some(vec!["y"]))], true, 6, false);
    let bs = String::from_utf8(bare).unwrap();
    assert!(bs.contains("\ny\n"));
}

#[test]
fn json_output_shape() {
    let out = render_json(&vec![hit(0, Some(vec!["line\"1"]))]);
    let s = String::from_utf8(out).unwrap();
    assert!(s.starts_with("[\n  {\n    \"rank\": 0,\n    \"score\": 0.707,\n"));
    assert!(s.contains("    \"path\": \"dir/a&b<c.rs\",\n"));
    assert!(s.contains("    \"snippet\": [\n      \"line\\\"1\"\n    ]\n"));
    assert!(s.ends_with("]\n"));
    let none = render_json(&vec![hit(1, None)]);
    assert!(String::from_utf8(none).unwrap().contains("\"snippet\": null"));
}

#[test]
fn xml_output_escapes_attributes() {
    let out = render_xml(&vec![hit(0, Some(vec!["a<b"]))], false, false);
    let s = String::from_utf8(out).unwrap();
    assert!(s.starts_with("<results>\n"));
    assert!(s.contains("path=\"dir/a&amp;b&lt;c.rs\""));
    assert!(s.contains("<line n=\"3\">a&lt;b</line>"));
    assert!(s.ends_with("</results>\n"));
    let diffed = render_xml(&vec![hit(0, Some(vec!["a"]))], true, true);
    assert!(String::from_utf8(diffed).unwrap().contains("<line op=\"add\">a</line>"));
}

#[test]
fn xml_escape_basic() {
    let s = r#"<tag> & " ' ;"#;
    let e = xml_escape(s);
    assert!(e.contains("&lt;tag&gt;"));
    assert!(e.contains("&amp;"));
    assert!(e.contains("&quot;"));
    assert!(e.contains("&apos;"));
}

#[test]
fn test_sample_text_binary_detection() {
    let (bin, txt) = sample_text(b"\x00\x01\x02", 3);
    assert!(bin);
    assert!(txt.is_none());
    let (bin, txt) = sample_text(b"hello world", 11);
    assert!(!bin);
    assert_eq!(txt.as_deref(), Some("hello world"));
}

#[test]
fn large_samples_are_cut_down() {
    let text: String = (0..2000).map(|i| format!("line {}\n", i)).collect();
    let (bin, sampled) = sample_text(text.as_bytes(), text.len());
    assert!(!bin);
    let s = sampled.unwrap();
    assert!(s.len() < text.len());
    assert!(s.contains("--- sampled"));
    assert!(s.starts_with("line 0\n"));
}

#[test]
fn titles_are_cased() {
    assert_eq!(title_case("hello"), "Hello");
    assert_eq!(title_case(""), "");
    assert_eq!(title_case("ßeta"), "SSeta");
}

#[test]
fn store_assigns_dense_ids() {
    let mut store = VectorStore::new(2);
    assert_eq!(store.rows(), 0);
    let v1: Vec<u32> = vec![f32::to_bits(0.6), f32::to_bits(0.8)];
    let id0 = store.push(&v1);
    let id1 = store.push(&v1);
    assert_eq!((id0, id1), (0, 1));
    assert_eq!(store.rows(), 2);
    assert_eq!(store.row(1), v1);
}

#[test]
fn normalized_vectors_survive_persistence() {
    let raw = [0.6f32, 0.8f32];
    let norm: f32 = raw.iter().map(|x| x * x).sum::<f32>().sqrt();
    let unit: Vec<f32> = raw.iter().map(|x| x / norm).collect();
    let bits: Vec<u32> = unit.iter().map(|x| x.to_bits()).collect();
    let bytes = encode_vectors_file(2, &vec![0u64], &bits);
    let (_, _, data) = decode_vectors_file(&bytes).unwrap();
    let back: Vec<f32> = data.iter().map(|b| f32::from_bits(*b)).collect();
    let n: f32 = back.iter().map(|x| x * x).sum::<f32>().sqrt();
    assert!((n - 1.0).abs() <= 1e-5);
    assert_eq!(back, unit);
}

#[test]
fn unparsable_timestamps_have_no_age() {
    assert!(relative_age("not a timestamp").is_none());
    assert!(relative_age("2024-01-01T00:00:00Z").is_some());
}

#[test]
fn ann_and_linear_paths_agree_on_top_hit() {
    let vectors: Vec<Vec<f32>> = vec![
        vec![1.0, 0.0, 0.0],
        vec![0.6, 0.8, 0.0],
        vec![0.0, 0.0, 1.0],
        vec![0.8, 0.6, 0.0],
    ];
    let hnsw: Hnsw<f32, DistCosine> = Hnsw::new(16, vectors.len(), 16, 200, DistCosine::default());
    for (i, v) in vectors.iter().enumerate() {
        hnsw.insert((v.as_slice(), i));
    }
    let q = vec![0.9f32, 0.1, 0.0];
    let ann = hnsw.search(&q, 1, 64);
    let ann_top = ann[0].d_id;
    let cosine = |a: &[f32], b: &[f32]| -> f32 {
        let dot: f32 = a.iter().zip(b).map(|(x, y)| x * y).sum();
        let na: f32 = a.iter().map(|x| x * x).sum::<f32>().sqrt();
        let nb: f32 = b.iter().map(|x| x * x).sum::<f32>().sqrt();
        dot / (na * nb)
    };
    let keys: Vec<(usize, u32)> = vectors
        .iter()
        .enumerate()
        .map(|(i, v)| (i, score_key(cosine(&q, v))))
        .collect();
    let linear = sort_hits(&keys);
    assert_eq!(ann_top, linear[0].0);
}

#[test]
fn test_inputs_hash_deterministic() {
    let files = vec![
        FileEntry {
            path: "a.txt".to_string(),
            size_bytes: 10,
            modified_at: None,
            sha256: "aa".to_string(),
            binary: false,
            sampled_text: Some("foo".to_string()),
        },
        FileEntry {
            path: "b.txt".to_string(),
            size_bytes: 20,
            modified_at: None,
            sha256: "bb".to_string(),
            binary: false,
            sampled_text: Some("bar".to_string()),
        },
    ];
    let h1 = compute_inputs_hash(Some("deadbeef"), &files);
    let h2 = compute_inputs_hash(Some("deadbeef"), &files);
    assert_eq!(h1, h2);
    let swapped = vec![files[1].clone(), files[0].clone()];
    let h3 = compute_inputs_hash(Some("deadbeef"), &swapped);
    assert_eq!(h1, h3);
    let other = compute_inputs_hash(None, &files);
    assert_ne!(h1, other);
}
