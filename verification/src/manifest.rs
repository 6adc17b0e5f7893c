//! The index manifest: the single document describing an index instance,
//! its configuration, counts and integrity checksums; the verify check;
//! and the status report.

use vstd::prelude::*;
use vstd::utf8::encode_utf8;
use crate::bytesutil::dec_bytes;
use crate::bytesutil::u64_to_dec;
use crate::bytesutil::str_bytes;
use crate::digest::sha256_of;
use crate::digest::hex_chars;
use crate::digest::sha256_hex;
use crate::jsonio::esc_json;
use crate::jsonio::escape_json_bytes;
use crate::analytics::Analytics;
use crate::analytics::spec_opt_string_bytes;

verus! {

broadcast use vstd::utf8::group_utf8_lib;

/// The manifest of an index instance.
#[derive(Debug, Clone)]
pub struct Manifest {
    pub index_version: u32,
    pub engine: String,
    pub model: String,
    pub dim: u32,
    pub metric: String,
    pub chunk_mode: String,
    pub chunk_lines: u64,
    pub chunk_overlap: u64,
    pub repo_root: String,
    pub git_sha: Option<String>,
    pub files: u64,
    pub chunks: u64,
    pub checksum_vectors: String,
    pub checksum_meta: String,
    pub created_at: String,
    pub last_refresh: String,
}

/// A quoted, escaped JSON string.
pub open spec fn jstr(s: Seq<char>) -> Seq<u8> {
    seq![0x22u8] + esc_json(encode_utf8(s)) + seq![0x22u8]
}

/// The manifest document bytes, pretty-printed with two-space indentation.
pub open spec fn spec_render_manifest(m: Manifest) -> Seq<u8> {
    encode_utf8("{\n  \"index_version\": "@) + dec_bytes(m.index_version as nat) + encode_utf8(
        ",\n  \"engine\": "@,
    ) + jstr(m.engine@) + encode_utf8(",\n  \"model\": "@) + jstr(m.model@) + encode_utf8(
        ",\n  \"dim\": "@,
    ) + dec_bytes(m.dim as nat) + encode_utf8(",\n  \"metric\": "@) + jstr(m.metric@)
        + encode_utf8(",\n  \"chunk_mode\": "@) + jstr(m.chunk_mode@) + encode_utf8(
        ",\n  \"chunk\": {\n    \"lines\": "@,
    ) + dec_bytes(m.chunk_lines as nat) + encode_utf8(",\n    \"overlap\": "@) + dec_bytes(
        m.chunk_overlap as nat,
    ) + encode_utf8("\n  },\n  \"repo\": {\n    \"root\": "@) + jstr(m.repo_root@)
        + encode_utf8(",\n    \"git_sha\": "@) + spec_opt_string_bytes(m.git_sha) + encode_utf8(
        "\n  },\n  \"counts\": {\n    \"files\": "@,
    ) + dec_bytes(m.files as nat) + encode_utf8(",\n    \"chunks\": "@) + dec_bytes(
        m.chunks as nat,
    ) + encode_utf8("\n  },\n  \"checksums\": {\n    \"vectors_hnsw\": "@) + jstr(
        m.checksum_vectors@,
    ) + encode_utf8(",\n    \"meta_jsonl\": "@) + jstr(m.checksum_meta@) + encode_utf8(
        "\n  },\n  \"created_at\": "@,
    ) + jstr(m.created_at@) + encode_utf8(",\n  \"last_refresh\": "@) + jstr(m.last_refresh@)
        + encode_utf8("\n}"@)
}

fn push_jstr(out: &mut Vec<u8>, s: &String)
    ensures
        final(out)@ == old(out)@ + jstr(s@),
{
    let ghost before = out@;
    out.push(0x22);
    let sb = str_bytes(s.as_str());
    let mut eb = escape_json_bytes(&sb);
    out.append(&mut eb);
    out.push(0x22);
    proof {
        assert(out@ =~= before + jstr(s@));
    }
}

fn push_lit(out: &mut Vec<u8>, lit: &str)
    ensures
        final(out)@ == old(out)@ + encode_utf8(lit@),
{
    let mut b = str_bytes(lit);
    out.append(&mut b);
}

fn push_u64(out: &mut Vec<u8>, n: u64)
    ensures
        final(out)@ == old(out)@ + dec_bytes(n as nat),
{
    let mut b = u64_to_dec(n);
    out.append(&mut b);
}

/// Render the manifest document.
pub fn render_manifest(m: &Manifest) -> (out: Vec<u8>)
    ensures
        out@ == spec_render_manifest(*m),
{
    let mut out: Vec<u8> = Vec::new();
    push_lit(&mut out, "{\n  \"index_version\": ");
    push_u64(&mut out, m.index_version as u64);
    proof {
        assert(dec_bytes(m.index_version as u64 as nat) == dec_bytes(m.index_version as nat));
    }
    push_lit(&mut out, ",\n  \"engine\": ");
    push_jstr(&mut out, &m.engine);
    push_lit(&mut out, ",\n  \"model\": ");
    push_jstr(&mut out, &m.model);
    push_lit(&mut out, ",\n  \"dim\": ");
    push_u64(&mut out, m.dim as u64);
    proof {
        assert(dec_bytes(m.dim as u64 as nat) == dec_bytes(m.dim as nat));
    }
    push_lit(&mut out, ",\n  \"metric\": ");
    push_jstr(&mut out, &m.metric);
    push_lit(&mut out, ",\n  \"chunk_mode\": ");
    push_jstr(&mut out, &m.chunk_mode);
    push_lit(&mut out, ",\n  \"chunk\": {\n    \"lines\": ");
    push_u64(&mut out, m.chunk_lines);
    push_lit(&mut out, ",\n    \"overlap\": ");
    push_u64(&mut out, m.chunk_overlap);
    push_lit(&mut out, "\n  },\n  \"repo\": {\n    \"root\": ");
    push_jstr(&mut out, &m.repo_root);
    push_lit(&mut out, ",\n    \"git_sha\": ");
    match &m.git_sha {
        None => {
            push_lit(&mut out, "null");
            proof {
                assert(encode_utf8("null"@) == spec_opt_string_bytes(m.git_sha));
            }
        },
        Some(s) => {
            push_jstr(&mut out, s);
            proof {
                assert(jstr(s@) == spec_opt_string_bytes(m.git_sha));
            }
        },
    }
    push_lit(&mut out, "\n  },\n  \"counts\": {\n    \"files\": ");
    push_u64(&mut out, m.files);
    push_lit(&mut out, ",\n    \"chunks\": ");
    push_u64(&mut out, m.chunks);
    push_lit(&mut out, "\n  },\n  \"checksums\": {\n    \"vectors_hnsw\": ");
    push_jstr(&mut out, &m.checksum_vectors);
    push_lit(&mut out, ",\n    \"meta_jsonl\": ");
    push_jstr(&mut out, &m.checksum_meta);
    push_lit(&mut out, "\n  },\n  \"created_at\": ");
    push_jstr(&mut out, &m.created_at);
    push_lit(&mut out, ",\n  \"last_refresh\": ");
    push_jstr(&mut out, &m.last_refresh);
    push_lit(&mut out, "\n}");
    proof {
        assert(out@ =~= spec_render_manifest(*m));
    }
    out
}

/// Build the manifest for freshly written artifacts: its checksums are the
/// hex digests of exactly the bytes that were written.
pub fn build_manifest(
    model: String,
    dim: u32,
    chunk_mode: String,
    chunk_lines: u64,
    chunk_overlap: u64,
    repo_root: String,
    git_sha: Option<String>,
    files: u64,
    chunks: u64,
    vec_bytes: &[u8],
    meta_bytes: &[u8],
    now: String,
) -> (m: Manifest)
    ensures
        m.model == model,
        m.dim == dim,
        m.chunks == chunks,
        m.files == files,
        m.index_version == 1,
        m.engine@ == "fastembed+hnsw"@,
        m.metric@ == "cosine"@,
        m.chunk_mode == chunk_mode,
        m.chunk_lines == chunk_lines,
        m.chunk_overlap == chunk_overlap,
        m.repo_root == repo_root,
        m.git_sha == git_sha,
        m.checksum_vectors@ == hex_chars(sha256_of(vec_bytes@)),
        m.checksum_meta@ == hex_chars(sha256_of(meta_bytes@)),
        m.created_at == now && m.last_refresh == now,
{
    let chk_vec = sha256_hex(vec_bytes);
    let chk_meta = sha256_hex(meta_bytes);
    let engine = chars_str_engine();
    let metric = chars_str_cosine();
    Manifest {
        index_version: 1,
        engine,
        model,
        dim,
        metric,
        chunk_mode,
        chunk_lines,
        chunk_overlap,
        repo_root,
        git_sha,
        files,
        chunks,
        checksum_vectors: chk_vec,
        checksum_meta: chk_meta,
        created_at: now.clone(),
        last_refresh: now,
    }
}

fn chars_str_engine() -> (r: String)
    ensures
        r@ == "fastembed+hnsw"@,
{
    let s: &str = "fastembed+hnsw";
    s.to_owned()
}

fn chars_str_cosine() -> (r: String)
    ensures
        r@ == "cosine"@,
{
    let s: &str = "cosine";
    s.to_owned()
}

/// The manifest agrees with the artifacts: both stored checksums equal
/// the digests of the artifact bytes.
pub open spec fn spec_verify_ok(m: Manifest, vec_bytes: Seq<u8>, meta_bytes: Seq<u8>) -> bool {
    m.checksum_vectors@ == hex_chars(sha256_of(vec_bytes)) && m.checksum_meta@ == hex_chars(
        sha256_of(meta_bytes),
    )
}

/// Does the manifest agree with the artifacts on disk? True exactly when
/// both stored checksums match the recomputed digests of the given bytes.
pub fn check_integrity(m: &Manifest, vec_bytes: &[u8], meta_bytes: &[u8]) -> (r: bool)
    ensures
        r == spec_verify_ok(*m, vec_bytes@, meta_bytes@),
{
    let chk_vec = sha256_hex(vec_bytes);
    let chk_meta = sha256_hex(meta_bytes);
    let v_ok = string_eq(&m.checksum_vectors, &chk_vec);
    let m_ok = string_eq(&m.checksum_meta, &chk_meta);
    v_ok && m_ok
}

fn string_eq(a: &String, b: &String) -> (r: bool)
    ensures
        r == (a@ == b@),
{
    a.eq(b)
}

/// A build followed by a verify succeeds: a manifest whose checksums were
/// taken from the artifact bytes it was written with always passes the
/// integrity check against those same bytes, because the digest is a
/// function of the bytes alone.
pub proof fn lemma_build_then_verify(m: Manifest, vec_bytes: Seq<u8>, meta_bytes: Seq<u8>)
    requires
        m.checksum_vectors@ == hex_chars(sha256_of(vec_bytes)),
        m.checksum_meta@ == hex_chars(sha256_of(meta_bytes)),
    ensures
        spec_verify_ok(m, vec_bytes, meta_bytes),
{
}

/// The two-decimal ratio text for `hits/queries`, rounded half up; `0.00`
/// when there are no queries.
pub open spec fn spec_ratio_bytes(hits: nat, queries: nat) -> Seq<u8> {
    if queries == 0 {
        encode_utf8("0.00"@)
    } else {
        let r0 = (hits * 200 + queries) / (2 * queries);
        let r: int = if r0 <= u64::MAX {
            r0 as int
        } else {
            u64::MAX as int
        };
        dec_bytes((r / 100) as nat) + seq![
            0x2eu8,
            (0x30 + (r / 10) % 10) as u8,
            (0x30 + r % 10) as u8,
        ]
    }
}

fn push_ratio(out: &mut Vec<u8>, hits: u64, queries: u64)
    ensures
        final(out)@ == old(out)@ + spec_ratio_bytes(hits as nat, queries as nat),
{
    if queries == 0 {
        push_lit(out, "0.00");
        return ;
    }
    let h = hits as u128;
    let q = queries as u128;
    proof {
        assert(h * 200 + q <= u128::MAX && 2 * q <= u128::MAX) by (nonlinear_arith)
            requires
                h <= u64::MAX,
                q <= u64::MAX,
                q >= 1,
        ;
    }
    let r128: u128 = (h * 200 + q) / (2 * q);
    let r: u64 = if r128 <= u64::MAX as u128 {
        r128 as u64
    } else {
        u64::MAX
    };
    let ghost r0 = (hits as nat * 200 + queries as nat) / (2 * queries as nat);
    let ghost rr: int = if r0 <= u64::MAX {
        r0 as int
    } else {
        u64::MAX as int
    };
    proof {
        assert(r128 == r0) by (nonlinear_arith)
            requires
                h == hits as int,
                q == queries as int,
                queries >= 1,
                r128 == (h * 200 + q) / (2 * q),
                r0 == (hits as nat * 200 + queries as nat) / (2 * queries as nat),
        ;
        assert(r as int == rr);
    }
    let mut d = u64_to_dec(r / 100);
    out.append(&mut d);
    out.push(0x2e);
    out.push(0x30 + ((r / 10) % 10) as u8);
    out.push(0x30 + (r % 10) as u8);
    proof {
        assert(r as int / 100 == rr / 100 && (r as int / 10) % 10 == (rr / 10) % 10 && r as int
            % 10 == rr % 10);
        assert(final(out)@ =~= old(out)@ + spec_ratio_bytes(hits as nat, queries as nat));
    }
}

/// The status report for a present index: readiness, age, model and
/// dimension, vector count, file size, and query analytics.
pub open spec fn spec_status_text(
    m: Manifest,
    a: Analytics,
    vec_size: u64,
    age: Seq<char>,
) -> Seq<u8> {
    encode_utf8("Index: Ready\nLast indexed: "@) + encode_utf8(age) + encode_utf8(
        "\nModel: "@,
    ) + encode_utf8(m.model@) + encode_utf8(" ("@) + dec_bytes(m.dim as nat) + encode_utf8(
        "-D)\nVectors: "@,
    ) + dec_bytes(m.chunks as nat) + encode_utf8("\nSize: "@) + dec_bytes(vec_size as nat)
        + encode_utf8(" bytes\nAnalytics: queries="@) + dec_bytes(a.queries as nat) + encode_utf8(
        ", hit_ratio="@,
    ) + spec_ratio_bytes(a.hits as nat, a.queries as nat) + encode_utf8("\n"@)
}

/// Render the status report for a present index.
pub fn render_status(m: &Manifest, a: &Analytics, vec_size: u64, age: &String) -> (out: Vec<u8>)
    ensures
        out@ == spec_status_text(*m, *a, vec_size, age@),
{
    let mut out: Vec<u8> = Vec::new();
    push_lit(&mut out, "Index: Ready\nLast indexed: ");
    let mut ab = str_bytes(age.as_str());
    out.append(&mut ab);
    push_lit(&mut out, "\nModel: ");
    let mut mb = str_bytes(m.model.as_str());
    out.append(&mut mb);
    push_lit(&mut out, " (");
    push_u64(&mut out, m.dim as u64);
    proof {
        assert(dec_bytes(m.dim as u64 as nat) == dec_bytes(m.dim as nat));
    }
    push_lit(&mut out, "-D)\nVectors: ");
    push_u64(&mut out, m.chunks);
    push_lit(&mut out, "\nSize: ");
    push_u64(&mut out, vec_size);
    push_lit(&mut out, " bytes\nAnalytics: queries=");
    push_u64(&mut out, a.queries);
    push_lit(&mut out, ", hit_ratio=");
    push_ratio(&mut out, a.hits, a.queries);
    push_lit(&mut out, "\n");
    proof {
        assert(out@ =~= spec_status_text(*m, *a, vec_size, age@));
    }
    out
}

} // verus!
