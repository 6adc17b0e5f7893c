//! The query engine's verified core: ordering candidate hits by
//! similarity, applying the confidence gate, and rendering results in the
//! text, json and xml output formats.
//!
//! A similarity is carried as an order key: a 32-bit value whose order
//! agrees with the similarity order, computed by the caller from the raw
//! scores. Display strings for scores are likewise prepared by the caller.

use vstd::prelude::*;
use vstd::utf8::encode_utf8;
use vstd::seq_lib::lemma_multiset_commutative;
use crate::bytesutil::str_bytes;
use crate::bytesutil::dec_bytes;
use crate::bytesutil::u64_to_dec;
use crate::bytesutil::str_chars;
use crate::bytesutil::chars_to_string;
use crate::jsonio::esc_json;
use crate::jsonio::escape_json_bytes;

verus! {

broadcast use vstd::seq_lib::group_to_multiset_ensures;

// ---------------------------------------------------------------------------
// Ordering and gating
// ---------------------------------------------------------------------------

/// The result order: larger keys first; equal keys keep input order, which
/// the pair's index makes explicit.
pub open spec fn hit_le(a: (usize, u32), b: (usize, u32)) -> bool {
    a.1 > b.1 || (a.1 == b.1 && a.0 <= b.0)
}

/// Sort hits by descending key, ties by ascending index. The result holds
/// exactly the input pairs.
pub fn sort_hits(rs: &Vec<(usize, u32)>) -> (r: Vec<(usize, u32)>)
    ensures
        r@.len() == rs@.len(),
        r@.to_multiset() == rs@.to_multiset(),
        forall|j: int| 0 < j < r@.len() ==> hit_le(#[trigger] r@[j - 1], r@[j]),
{
    let mut out: Vec<(usize, u32)> = Vec::new();
    let mut i: usize = 0;
    proof {
        assert(rs@.subrange(0, 0) =~= Seq::<(usize, u32)>::empty());
        assert(out@.to_multiset() =~= rs@.subrange(0, 0).to_multiset());
    }
    while i < rs.len()
        invariant
            i <= rs@.len(),
            out@.len() == i,
            out@.to_multiset() == rs@.subrange(0, i as int).to_multiset(),
            forall|j: int| 0 < j < out@.len() ==> hit_le(#[trigger] out@[j - 1], out@[j]),
        decreases rs@.len() - i,
    {
        let x = (rs[i].0, rs[i].1);
        let mut p: usize = 0;
        while p < out.len() && (out[p].1 > x.1 || (out[p].1 == x.1 && out[p].0 <= x.0))
            invariant
                p <= out@.len(),
                forall|j: int| 0 <= j < p ==> hit_le(#[trigger] out@[j], x),
            decreases out@.len() - p,
        {
            p = p + 1;
        }
        let ghost before = out@;
        let mut nw: Vec<(usize, u32)> = Vec::new();
        let mut a: usize = 0;
        while a < p
            invariant
                a <= p <= before.len(),
                out@ == before,
                nw@ == before.subrange(0, a as int),
            decreases p - a,
        {
            nw.push((out[a].0, out[a].1));
            assert(nw@ =~= before.subrange(0, a + 1));
            a = a + 1;
        }
        nw.push(x);
        let mut c: usize = p;
        while c < out.len()
            invariant
                p <= c <= before.len(),
                out@ == before,
                nw@ == before.subrange(0, p as int).push(x) + before.subrange(p as int, c as int),
            decreases before.len() - c,
        {
            nw.push((out[c].0, out[c].1));
            assert(nw@ =~= before.subrange(0, p as int).push(x) + before.subrange(
                p as int,
                c + 1,
            ));
            c = c + 1;
        }
        proof {
            let pre = before.subrange(0, p as int);
            let suf = before.subrange(p as int, before.len() as int);
            assert(nw@ =~= pre.push(x) + suf);
            lemma_insert_hit_sorted(before, x, p as int);
            lemma_multiset_commutative(pre.push(x), suf);
            lemma_multiset_commutative(pre, suf);
            assert(before =~= pre + suf);
            assert(pre.push(x).to_multiset() =~= pre.to_multiset().insert(x));
            assert(nw@.to_multiset() =~= before.to_multiset().insert(x));
            let upto = rs@.subrange(0, i + 1);
            assert(upto.drop_last() =~= rs@.subrange(0, i as int));
            assert(upto =~= rs@.subrange(0, i as int).push(x));
            assert(upto.to_multiset() =~= rs@.subrange(0, i as int).to_multiset().insert(x));
            assert(nw@.to_multiset() =~= upto.to_multiset());
        }
        out = nw;
        i = i + 1;
    }
    proof {
        assert(rs@.subrange(0, rs@.len() as int) =~= rs@);
    }
    out
}

proof fn lemma_insert_hit_sorted(before: Seq<(usize, u32)>, x: (usize, u32), p: int)
    requires
        0 <= p <= before.len(),
        forall|j: int| 0 < j < before.len() ==> hit_le(#[trigger] before[j - 1], before[j]),
        forall|j: int| 0 <= j < p ==> hit_le(#[trigger] before[j], x),
        p < before.len() ==> !hit_le(before[p], x),
    ensures
        ({
            let nw = before.subrange(0, p).push(x) + before.subrange(p, before.len() as int);
            forall|j: int| 0 < j < nw.len() ==> hit_le(#[trigger] nw[j - 1], nw[j])
        }),
{
    let nw = before.subrange(0, p).push(x) + before.subrange(p, before.len() as int);
    assert forall|j: int| 0 < j < nw.len() implies hit_le(#[trigger] nw[j - 1], nw[j]) by {
        assert(forall|k: int| 0 <= k < p ==> nw[k] == (#[trigger] before[k]));
        assert(nw[p] == x);
        assert(forall|k: int| p < k < nw.len() ==> nw[k] == (#[trigger] before[k - 1]));
        if j < p {
        } else if j == p {
            assert(hit_le(before[j - 1], x));
        } else if j == p + 1 {
            assert(!hit_le(before[p], x));
        } else {
            lemma_hit_sorted_pair(before, j - 2, j - 1);
        }
    }
}

proof fn lemma_hit_sorted_pair(rs: Seq<(usize, u32)>, i: int, j: int)
    requires
        forall|t: int| 0 < t < rs.len() ==> hit_le(#[trigger] rs[t - 1], rs[t]),
        0 <= i <= j < rs.len(),
    ensures
        i < j ==> hit_le(rs[i], rs[j]),
    decreases j - i,
{
    if i < j {
        lemma_hit_sorted_pair(rs, i, j - 1);
        assert(hit_le(rs[j - 1], rs[j]));
    }
}

/// Apply the confidence gate and keep the top `k` hits: nothing when there
/// are no hits or the best key falls below the threshold key, else the
/// first `min(k, n)` entries of the sorted hits.
pub fn gate_and_select(sorted: &Vec<(usize, u32)>, k: usize, threshold_key: u32) -> (r: Option<
    Vec<(usize, u32)>,
>)
    ensures
        r is None <==> (sorted@.len() == 0 || sorted@[0].1 < threshold_key),
        r is Some ==> r->0@ == sorted@.subrange(
            0,
            if k as int <= sorted@.len() {
                k as int
            } else {
                sorted@.len() as int
            },
        ),
{
    if sorted.len() == 0 {
        return None;
    }
    if sorted[0].1 < threshold_key {
        return None;
    }
    let take = if k <= sorted.len() {
        k
    } else {
        sorted.len()
    };
    let mut out: Vec<(usize, u32)> = Vec::new();
    let mut i: usize = 0;
    while i < take
        invariant
            i <= take <= sorted@.len(),
            out@ == sorted@.subrange(0, i as int),
        decreases take - i,
    {
        out.push((sorted[i].0, sorted[i].1));
        assert(out@ =~= sorted@.subrange(0, i + 1));
        i = i + 1;
    }
    Some(out)
}

// ---------------------------------------------------------------------------
// XML escaping
// ---------------------------------------------------------------------------

/// The XML escape of one character.
pub open spec fn xml_esc_char(c: char) -> Seq<char> {
    if c == '&' {
        seq!['&', 'a', 'm', 'p', ';']
    } else if c == '<' {
        seq!['&', 'l', 't', ';']
    } else if c == '>' {
        seq!['&', 'g', 't', ';']
    } else if c == '"' {
        seq!['&', 'q', 'u', 'o', 't', ';']
    } else if c == '\'' {
        seq!['&', 'a', 'p', 'o', 's', ';']
    } else {
        seq![c]
    }
}

/// The XML escape of a string.
pub open spec fn spec_xml_escape(s: Seq<char>) -> Seq<char>
    decreases s.len()
{
    if s.len() == 0 {
        Seq::empty()
    } else {
        xml_esc_char(s[0]) + spec_xml_escape(s.drop_first())
    }
}

/// Escape `&`, `<`, `>`, `"` and `'` for XML attribute and text content.
pub fn xml_escape(s: &str) -> (r: String)
    ensures
        r@ == spec_xml_escape(s@),
{
    let cs = str_chars(s);
    let ghost sv = cs@;
    let mut out: Vec<char> = Vec::new();
    proof {
        assert(sv.subrange(0, sv.len() as int) =~= sv);
    }
    let mut i: usize = 0;
    while i < cs.len()
        invariant
            i <= cs@.len(),
            cs@ == sv,
            spec_xml_escape(sv) == out@ + spec_xml_escape(sv.subrange(i as int, sv.len() as int)),
        decreases cs@.len() - i,
    {
        let ghost suf = sv.subrange(i as int, sv.len() as int);
        proof {
            assert(suf.drop_first() =~= sv.subrange(i as int + 1, sv.len() as int));
            assert(spec_xml_escape(suf) == xml_esc_char(sv[i as int]) + spec_xml_escape(
                sv.subrange(i as int + 1, sv.len() as int),
            ));
        }
        let c = cs[i];
        let ghost before = out@;
        if c == '&' {
            out.push('&');
            out.push('a');
            out.push('m');
            out.push('p');
            out.push(';');
        } else if c == '<' {
            out.push('&');
            out.push('l');
            out.push('t');
            out.push(';');
        } else if c == '>' {
            out.push('&');
            out.push('g');
            out.push('t');
            out.push(';');
        } else if c == '"' {
            out.push('&');
            out.push('q');
            out.push('u');
            out.push('o');
            out.push('t');
            out.push(';');
        } else if c == '\'' {
            out.push('&');
            out.push('a');
            out.push('p');
            out.push('o');
            out.push('s');
            out.push(';');
        } else {
            out.push(c);
        }
        proof {
            assert(out@ =~= before + xml_esc_char(c));
            assert(out@ + spec_xml_escape(sv.subrange(i as int + 1, sv.len() as int)) =~= before
                + spec_xml_escape(suf));
        }
        i = i + 1;
    }
    proof {
        assert(sv.subrange(i as int, sv.len() as int) =~= Seq::<char>::empty());
        assert(out@ + spec_xml_escape(Seq::<char>::empty()) =~= out@);
    }
    chars_to_string(&out)
}

// ---------------------------------------------------------------------------
// Rendering
// ---------------------------------------------------------------------------

/// A joined result ready for rendering: its rank, the caller-formatted
/// score text, and the metadata fields of the chunk it names.
pub struct RenderedHit {
    pub rank: u64,
    pub score_str: String,
    pub path: String,
    pub start: u64,
    pub end: u64,
    pub lang: String,
    pub snippet: Option<Vec<String>>,
}

/// `n` spaces.
pub open spec fn spaces(n: int) -> Seq<u8>
    decreases n when n >= 0
{
    if n <= 0 {
        Seq::empty()
    } else {
        spaces(n - 1).push(0x20u8)
    }
}

/// A number padded on the left with spaces to at least `width` columns.
pub open spec fn padded_dec(n: nat, width: int) -> Seq<u8> {
    spaces(
        if width - dec_bytes(n).len() >= 0 {
            width - dec_bytes(n).len()
        } else {
            0int
        },
    ) + dec_bytes(n)
}

fn push_lit(out: &mut Vec<u8>, lit: &str)
    ensures
        final(out)@ == old(out)@ + encode_utf8(lit@),
{
    let mut b = str_bytes(lit);
    out.append(&mut b);
}

fn push_str(out: &mut Vec<u8>, s: &String)
    ensures
        final(out)@ == old(out)@ + encode_utf8(s@),
{
    let mut b = str_bytes(s.as_str());
    out.append(&mut b);
}

fn push_u64(out: &mut Vec<u8>, n: u64)
    ensures
        final(out)@ == old(out)@ + dec_bytes(n as nat),
{
    let mut b = u64_to_dec(n);
    out.append(&mut b);
}

fn push_padded_dec(out: &mut Vec<u8>, n: u64, width: usize)
    ensures
        final(out)@ == old(out)@ + padded_dec(n as nat, width as int),
{
    let ghost before = out@;
    let d = u64_to_dec(n);
    let ghost clamp: int = if width - dec_bytes(n as nat).len() >= 0 {
        width - dec_bytes(n as nat).len()
    } else {
        0int
    };
    let mut pad: usize = 0;
    proof {
        assert(spaces(0) =~= Seq::<u8>::empty());
        assert(out@ =~= before + spaces(0));
    }
    while pad < width && width - pad > d.len()
        invariant
            out@ == before + spaces(pad as int),
            d@ == dec_bytes(n as nat),
            pad <= clamp,
            clamp == if width - dec_bytes(n as nat).len() >= 0 {
                width - dec_bytes(n as nat).len()
            } else {
                0int
            },
        decreases width - pad,
    {
        out.push(0x20);
        proof {
            assert(out@ =~= before + spaces(pad as int + 1));
        }
        pad = pad + 1;
    }
    let mut db = u64_to_dec(n);
    out.append(&mut db);
    proof {
        assert(pad == clamp);
        assert(out@ =~= before + padded_dec(n as nat, width as int));
    }
}

proof fn lemma_spaces_len(n: int)
    requires
        n >= 0,
    ensures
        spaces(n).len() == n,
    decreases n,
{
    if n > 0 {
        lemma_spaces_len(n - 1);
    }
}

/// The header line of one hit: rank, score, location and language.
pub open spec fn spec_text_hit_header(h: RenderedHit) -> Seq<u8> {
    encode_utf8("["@) + dec_bytes(h.rank as nat) + encode_utf8("] "@) + encode_utf8(h.score_str@)
        + encode_utf8(" "@) + encode_utf8(h.path@) + encode_utf8(":"@) + dec_bytes(h.start as nat)
        + encode_utf8("-"@) + dec_bytes(h.end as nat) + encode_utf8(" ("@) + encode_utf8(h.lang@)
        + encode_utf8(")"@) + seq![0x0au8]
}

/// The text rendering of one hit, with its optional snippet block.
pub open spec fn spec_text_hit(h: RenderedHit, no_ln: bool, width: int, diff: bool) -> Seq<u8> {
    spec_text_hit_header(h) + match h.snippet {
        None => Seq::<u8>::empty(),
        Some(lines) => spec_text_snippet(lines@.map_values(|l: String| l@), h.start as nat, 0, no_ln, width, diff)
            + encode_utf8("---"@) + seq![0x0au8],
    }
}

/// The text rendering of snippet lines from index `i` on.
pub open spec fn spec_text_snippet(
    lines: Seq<Seq<char>>,
    start: nat,
    i: int,
    no_ln: bool,
    width: int,
    diff: bool,
) -> Seq<u8>
    decreases lines.len() - i when 0 <= i <= lines.len()
{
    if i >= lines.len() {
        Seq::empty()
    } else {
        let prefix: Seq<u8> = if diff {
            encode_utf8("+ "@)
        } else {
            Seq::empty()
        };
        let ln: nat = if start + i <= u64::MAX {
            (start + i) as nat
        } else {
            u64::MAX as nat
        };
        let head: Seq<u8> = if no_ln {
            prefix
        } else {
            padded_dec(ln, width) + encode_utf8(" | "@) + prefix
        };
        head + encode_utf8(lines[i]) + seq![0x0au8] + spec_text_snippet(
            lines,
            start,
            i + 1,
            no_ln,
            width,
            diff,
        )
    }
}

/// The text rendering of a result list.
pub open spec fn spec_text_output(
    hits: Seq<RenderedHit>,
    no_ln: bool,
    width: int,
    diff: bool,
) -> Seq<u8>
    decreases hits.len()
{
    if hits.len() == 0 {
        Seq::empty()
    } else {
        spec_text_hit(hits[0], no_ln, width, diff) + spec_text_output(
            hits.drop_first(),
            no_ln,
            width,
            diff,
        )
    }
}


#[verifier::rlimit(80)]
#[verifier::spinoff_prover]
fn push_text_header(out: &mut Vec<u8>, h: &RenderedHit)
    ensures
        final(out)@ == old(out)@ + spec_text_hit_header(*h),
{
    let ghost before = out@;
    push_lit(out, "[");
    push_u64(out, h.rank);
    push_lit(out, "] ");
    push_str(out, &h.score_str);
    push_lit(out, " ");
    push_str(out, &h.path);
    push_lit(out, ":");
    push_u64(out, h.start);
    push_lit(out, "-");
    push_u64(out, h.end);
    push_lit(out, " (");
    push_str(out, &h.lang);
    push_lit(out, ")");
    out.push(0x0a);
    proof {
        assert(out@ =~= before + spec_text_hit_header(*h));
    }
}

/// Render the text output for the hits.
#[verifier::rlimit(80)]
#[verifier::spinoff_prover]
pub fn render_text(hits: &Vec<RenderedHit>, no_ln: bool, width: usize, diff: bool) -> (out: Vec<
    u8,
>)
    ensures
        out@ == spec_text_output(hits@, no_ln, width as int, diff),
{
    let mut out: Vec<u8> = Vec::new();
    proof {
        assert(hits@.skip(0) =~= hits@);
    }
    let mut i: usize = 0;
    while i < hits.len()
        invariant
            i <= hits@.len(),
            spec_text_output(hits@, no_ln, width as int, diff) == out@ + spec_text_output(
                hits@.skip(i as int),
                no_ln,
                width as int,
                diff,
            ),
        decreases hits@.len() - i,
    {
        proof {
            let suf = hits@.skip(i as int);
            assert(suf[0] == hits@[i as int]);
            assert(suf.drop_first() =~= hits@.skip(i as int + 1));
        }
        let h = &hits[i];
        let ghost before = out@;
        push_text_header(&mut out, h);
        let ghost after_head = out@;
        match &h.snippet {
            None => {
                proof {
                    assert(out@ =~= before + spec_text_hit(
                        hits@[i as int],
                        no_ln,
                        width as int,
                        diff,
                    ));
                }
            },
            Some(lines) => {
                let ghost lseq = lines@.map_values(|l: String| l@);
                let ghost mid = out@;
                let ghost mut acc: Seq<u8> = Seq::empty();
                proof {
                    assert(out@ =~= mid + acc);
                }
                let mut j: usize = 0;
                while j < lines.len()
                    invariant
                        j <= lines@.len(),
                        lseq == lines@.map_values(|l: String| l@),
                        out@ == mid + acc,
                        spec_text_snippet(lseq, h.start as nat, 0, no_ln, width as int, diff)
                            == acc + spec_text_snippet(
                            lseq,
                            h.start as nat,
                            j as int,
                            no_ln,
                            width as int,
                            diff,
                        ),
                    decreases lines@.len() - j,
                {
                    let ghost piece_start = out@;
                    let j64: u64 = j as u64;
                    let ln: u64 = if h.start <= u64::MAX - j64 {
                        h.start + j64
                    } else {
                        u64::MAX
                    };
                    if !no_ln {
                        push_padded_dec(&mut out, ln, width);
                        push_lit(&mut out, " | ");
                    }
                    if diff {
                        push_lit(&mut out, "+ ");
                    }
                    push_str(&mut out, &lines[j]);
                    out.push(0x0a);
                    proof {
                        let prefix: Seq<u8> = if diff {
                            encode_utf8("+ "@)
                        } else {
                            Seq::<u8>::empty()
                        };
                        let lnn: nat = if h.start as nat + j as nat <= u64::MAX as nat {
                            (h.start as nat + j as nat) as nat
                        } else {
                            u64::MAX as nat
                        };
                        assert(ln as nat == lnn);
                        let head: Seq<u8> = if no_ln {
                            prefix
                        } else {
                            padded_dec(lnn, width as int) + encode_utf8(" | "@) + prefix
                        };
                        let piece = head + encode_utf8(lseq[j as int]) + seq![0x0au8];
                        assert(lseq[j as int] == lines@[j as int]@);
                        assert(out@ =~= piece_start + piece);
                        assert(spec_text_snippet(
                            lseq,
                            h.start as nat,
                            j as int,
                            no_ln,
                            width as int,
                            diff,
                        ) == piece + spec_text_snippet(
                            lseq,
                            h.start as nat,
                            j as int + 1,
                            no_ln,
                            width as int,
                            diff,
                        ));
                        acc = acc + piece;
                        assert(out@ =~= mid + acc);
                        assert(spec_text_snippet(lseq, h.start as nat, 0, no_ln, width as int, diff)
                            =~= acc + spec_text_snippet(
                            lseq,
                            h.start as nat,
                            j as int + 1,
                            no_ln,
                            width as int,
                            diff,
                        ));
                    }
                    j = j + 1;
                }
                proof {
                    assert(spec_text_snippet(
                        lseq,
                        h.start as nat,
                        j as int,
                        no_ln,
                        width as int,
                        diff,
                    ) =~= Seq::<u8>::empty());
                    assert(acc + Seq::<u8>::empty() =~= acc);
                }
                push_lit(&mut out, "---");
                out.push(0x0a);
                proof {
                    assert(out@ =~= after_head + (acc + encode_utf8("---"@) + seq![0x0au8]));
                    assert(out@ =~= before + spec_text_hit(
                        hits@[i as int],
                        no_ln,
                        width as int,
                        diff,
                    ));
                }
            },
        }
        proof {
            let suf = hits@.skip(i as int);
            assert(out@ + spec_text_output(hits@.skip(i as int + 1), no_ln, width as int, diff)
                =~= before + spec_text_output(suf, no_ln, width as int, diff));
        }
        i = i + 1;
    }
    proof {
        assert(spec_text_output(hits@.skip(i as int), no_ln, width as int, diff) =~= Seq::<
            u8,
        >::empty());
        assert(out@ + Seq::<u8>::empty() =~= out@);
    }
    out
}

// ---------------------------------------------------------------------------
// Empty outputs
// ---------------------------------------------------------------------------

/// The query output format.
#[derive(Debug, Clone, Copy, PartialEq, Eq)]
pub enum OutputFormat {
    Text,
    Json,
    Xml,
}

/// The output for a gated or empty query, per format.
pub open spec fn spec_empty_output(f: OutputFormat) -> Seq<u8> {
    match f {
        OutputFormat::Text => encode_utf8(
            "No information exists that matches the request.\n"@,
        ),
        OutputFormat::Json => encode_utf8("[]\n"@),
        OutputFormat::Xml => encode_utf8("<results/>\n"@),
    }
}

/// Render the empty-result sentinel for the requested format.
pub fn empty_output(f: OutputFormat) -> (out: Vec<u8>)
    ensures
        out@ == spec_empty_output(f),
{
    match f {
        OutputFormat::Text => str_bytes("No information exists that matches the request.\n"),
        OutputFormat::Json => str_bytes("[]\n"),
        OutputFormat::Xml => str_bytes("<results/>\n"),
    }
}

// ---------------------------------------------------------------------------
// JSON output
// ---------------------------------------------------------------------------

/// One pretty-printed JSON snippet line with its indentation and
/// separator.
pub open spec fn spec_json_snip_lines(lines: Seq<Seq<char>>, i: int) -> Seq<u8>
    decreases lines.len() - i when 0 <= i <= lines.len()
{
    if i >= lines.len() {
        Seq::empty()
    } else {
        encode_utf8("      "@) + seq![0x22u8] + esc_json(encode_utf8(lines[i])) + seq![0x22u8]
            + (if i + 1 < lines.len() {
            encode_utf8(",\n"@)
        } else {
            encode_utf8("\n"@)
        }) + spec_json_snip_lines(lines, i + 1)
    }
}

/// The pretty-printed snippet value: `null`, `[]`, or an indented array.
pub open spec fn spec_json_snippet(snippet: Option<Vec<String>>) -> Seq<u8> {
    match snippet {
        None => encode_utf8("null"@),
        Some(lines) => {
            if lines@.len() == 0 {
                encode_utf8("[]"@)
            } else {
                encode_utf8("[\n"@) + spec_json_snip_lines(
                    lines@.map_values(|l: String| l@),
                    0,
                ) + encode_utf8("    ]"@)
            }
        },
    }
}

/// One pretty-printed JSON object for a hit, without its separator.
pub open spec fn spec_json_hit(h: RenderedHit) -> Seq<u8> {
    encode_utf8("  {\n    \"rank\": "@) + dec_bytes(h.rank as nat) + encode_utf8(
        ",\n    \"score\": "@,
    ) + encode_utf8(h.score_str@) + encode_utf8(",\n    \"path\": "@) + seq![0x22u8] + esc_json(
        encode_utf8(h.path@),
    ) + seq![0x22u8] + encode_utf8(",\n    \"start\": "@) + dec_bytes(h.start as nat)
        + encode_utf8(",\n    \"end\": "@) + dec_bytes(h.end as nat) + encode_utf8(
        ",\n    \"lang\": "@,
    ) + seq![0x22u8] + esc_json(encode_utf8(h.lang@)) + seq![0x22u8] + encode_utf8(
        ",\n    \"snippet\": "@,
    ) + spec_json_snippet(h.snippet) + encode_utf8("\n  }"@)
}

/// The hits of the array body, separated by `,` and newlines.
pub open spec fn spec_json_hits(hits: Seq<RenderedHit>, i: int) -> Seq<u8>
    decreases hits.len() - i when 0 <= i <= hits.len()
{
    if i >= hits.len() {
        Seq::empty()
    } else {
        spec_json_hit(hits[i]) + (if i + 1 < hits.len() {
            encode_utf8(",\n"@)
        } else {
            encode_utf8("\n"@)
        }) + spec_json_hits(hits, i + 1)
    }
}

/// The pretty-printed JSON output for a result list.
pub open spec fn spec_json_output(hits: Seq<RenderedHit>) -> Seq<u8> {
    if hits.len() == 0 {
        encode_utf8("[]\n"@)
    } else {
        encode_utf8("[\n"@) + spec_json_hits(hits, 0) + encode_utf8("]\n"@)
    }
}

fn push_jstr(out: &mut Vec<u8>, s: &String)
    ensures
        final(out)@ == old(out)@ + seq![0x22u8] + esc_json(encode_utf8(s@)) + seq![0x22u8],
{
    let ghost before = out@;
    out.push(0x22);
    let sb = str_bytes(s.as_str());
    let mut eb = escape_json_bytes(&sb);
    out.append(&mut eb);
    out.push(0x22);
    proof {
        assert(out@ =~= before + seq![0x22u8] + esc_json(encode_utf8(s@)) + seq![0x22u8]);
    }
}

fn push_json_snippet(out: &mut Vec<u8>, snippet: &Option<Vec<String>>)
    ensures
        final(out)@ == old(out)@ + spec_json_snippet(*snippet),
{
    match snippet {
        None => {
            push_lit(out, "null");
        },
        Some(lines) => {
            if lines.len() == 0 {
                push_lit(out, "[]");
            } else {
                let ghost before = out@;
                push_lit(out, "[\n");
                let ghost lseq = lines@.map_values(|l: String| l@);
                let ghost mid = out@;
                let ghost mut acc: Seq<u8> = Seq::empty();
                proof {
                    assert(out@ =~= mid + acc);
                }
                let mut j: usize = 0;
                while j < lines.len()
                    invariant
                        j <= lines@.len(),
                        lseq == lines@.map_values(|l: String| l@),
                        out@ == mid + acc,
                        spec_json_snip_lines(lseq, 0) == acc + spec_json_snip_lines(
                            lseq,
                            j as int,
                        ),
                    decreases lines@.len() - j,
                {
                    let ghost piece_start = out@;
                    push_lit(out, "      ");
                    push_jstr(out, &lines[j]);
                    if j + 1 < lines.len() {
                        push_lit(out, ",\n");
                    } else {
                        push_lit(out, "\n");
                    }
                    proof {
                        let sep: Seq<u8> = if j as int + 1 < lseq.len() {
                            encode_utf8(",\n"@)
                        } else {
                            encode_utf8("\n"@)
                        };
                        let piece = encode_utf8("      "@) + seq![0x22u8] + esc_json(
                            encode_utf8(lseq[j as int]),
                        ) + seq![0x22u8] + sep;
                        assert(lseq[j as int] == lines@[j as int]@);
                        assert(out@ =~= piece_start + piece);
                        assert(spec_json_snip_lines(lseq, j as int) == piece
                            + spec_json_snip_lines(lseq, j as int + 1));
                        acc = acc + piece;
                        assert(out@ =~= mid + acc);
                        assert(spec_json_snip_lines(lseq, 0) =~= acc + spec_json_snip_lines(
                            lseq,
                            j as int + 1,
                        ));
                    }
                    j = j + 1;
                }
                proof {
                    assert(spec_json_snip_lines(lseq, j as int) =~= Seq::<u8>::empty());
                    assert(acc + Seq::<u8>::empty() =~= acc);
                }
                push_lit(out, "    ]");
                proof {
                    assert(out@ =~= before + spec_json_snippet(Some(*lines)));
                }
            }
        },
    }
}

#[verifier::rlimit(80)]
#[verifier::spinoff_prover]
fn push_json_hit(out: &mut Vec<u8>, h: &RenderedHit)
    ensures
        final(out)@ == old(out)@ + spec_json_hit(*h),
{
    let ghost before = out@;
    push_lit(out, "  {\n    \"rank\": ");
    push_u64(out, h.rank);
    push_lit(out, ",\n    \"score\": ");
    push_str(out, &h.score_str);
    push_lit(out, ",\n    \"path\": ");
    push_jstr(out, &h.path);
    push_lit(out, ",\n    \"start\": ");
    push_u64(out, h.start);
    push_lit(out, ",\n    \"end\": ");
    push_u64(out, h.end);
    push_lit(out, ",\n    \"lang\": ");
    push_jstr(out, &h.lang);
    push_lit(out, ",\n    \"snippet\": ");
    push_json_snippet(out, &h.snippet);
    push_lit(out, "\n  }");
    proof {
        assert(out@ =~= before + spec_json_hit(*h));
    }
}

/// Render the pretty-printed JSON output.
#[verifier::rlimit(60)]
pub fn render_json(hits: &Vec<RenderedHit>) -> (out: Vec<u8>)
    ensures
        out@ == spec_json_output(hits@),
{
    if hits.len() == 0 {
        return str_bytes("[]\n");
    }
    let mut out: Vec<u8> = Vec::new();
    push_lit(&mut out, "[\n");
    let ghost mid = out@;
    let ghost mut acc: Seq<u8> = Seq::empty();
    proof {
        assert(out@ =~= mid + acc);
    }
    let mut i: usize = 0;
    while i < hits.len()
        invariant
            i <= hits@.len(),
            hits@.len() > 0,
            out@ == mid + acc,
            mid == encode_utf8("[\n"@),
            spec_json_hits(hits@, 0) == acc + spec_json_hits(hits@, i as int),
        decreases hits@.len() - i,
    {
        let ghost piece_start = out@;
        push_json_hit(&mut out, &hits[i]);
        if i + 1 < hits.len() {
            push_lit(&mut out, ",\n");
        } else {
            push_lit(&mut out, "\n");
        }
        proof {
            let sep: Seq<u8> = if i as int + 1 < hits@.len() {
                encode_utf8(",\n"@)
            } else {
                encode_utf8("\n"@)
            };
            let piece = spec_json_hit(hits@[i as int]) + sep;
            assert(out@ =~= piece_start + piece);
            assert(spec_json_hits(hits@, i as int) == piece + spec_json_hits(
                hits@,
                i as int + 1,
            ));
            acc = acc + piece;
            assert(out@ =~= mid + acc);
            assert(spec_json_hits(hits@, 0) =~= acc + spec_json_hits(hits@, i as int + 1));
        }
        i = i + 1;
    }
    proof {
        assert(spec_json_hits(hits@, i as int) =~= Seq::<u8>::empty());
        assert(acc + Seq::<u8>::empty() =~= acc);
    }
    push_lit(&mut out, "]\n");
    proof {
        assert(out@ =~= spec_json_output(hits@));
    }
    out
}

// ---------------------------------------------------------------------------
// XML output
// ---------------------------------------------------------------------------

/// The XML-escaped UTF-8 bytes of a string.
pub open spec fn xesc(s: Seq<char>) -> Seq<u8> {
    encode_utf8(spec_xml_escape(s))
}

/// One snippet line element.
pub open spec fn spec_xml_line(
    line: Seq<char>,
    ln: nat,
    no_ln: bool,
    diff: bool,
) -> Seq<u8> {
    encode_utf8("      <line"@) + (if no_ln {
        Seq::<u8>::empty()
    } else {
        encode_utf8(" n=\""@) + dec_bytes(ln) + encode_utf8("\""@)
    }) + (if diff {
        encode_utf8(" op=\"add\""@)
    } else {
        Seq::<u8>::empty()
    }) + encode_utf8(">"@) + xesc(line) + encode_utf8("</line>\n"@)
}

/// The snippet line elements from index `i` on.
pub open spec fn spec_xml_lines(
    lines: Seq<Seq<char>>,
    start: nat,
    i: int,
    no_ln: bool,
    diff: bool,
) -> Seq<u8>
    decreases lines.len() - i when 0 <= i <= lines.len()
{
    if i >= lines.len() {
        Seq::empty()
    } else {
        let ln: nat = if start + i <= u64::MAX {
            (start + i) as nat
        } else {
            u64::MAX as nat
        };
        spec_xml_line(lines[i], ln, no_ln, diff) + spec_xml_lines(lines, start, i + 1, no_ln, diff)
    }
}

/// The opening element of one hit, with its attributes.
pub open spec fn spec_xml_hit_head(h: RenderedHit) -> Seq<u8> {
    encode_utf8("  <hit rank=\""@) + dec_bytes(h.rank as nat) + encode_utf8(
        "\" score=\""@,
    ) + xesc(h.score_str@) + encode_utf8("\" path=\""@) + xesc(h.path@) + encode_utf8(
        "\" start=\""@,
    ) + dec_bytes(h.start as nat) + encode_utf8("\" end=\""@) + dec_bytes(h.end as nat)
        + encode_utf8("\" lang=\""@) + xesc(h.lang@) + encode_utf8("\">\n"@)
}

/// One hit element with its attributes and optional snippet block.
pub open spec fn spec_xml_hit(h: RenderedHit, no_ln: bool, diff: bool) -> Seq<u8> {
    spec_xml_hit_head(h) + match h.snippet {
        None => encode_utf8("  </hit>\n"@),
        Some(lines) => encode_utf8("    <snippet>\n"@) + spec_xml_lines(
            lines@.map_values(|l: String| l@),
            h.start as nat,
            0,
            no_ln,
            diff,
        ) + encode_utf8("    </snippet>\n  </hit>\n"@),
    }
}

/// The XML output for a result list.
pub open spec fn spec_xml_output(hits: Seq<RenderedHit>, i: int, no_ln: bool, diff: bool) -> Seq<
    u8,
>
    decreases hits.len() - i when 0 <= i <= hits.len()
{
    if i >= hits.len() {
        Seq::empty()
    } else {
        spec_xml_hit(hits[i], no_ln, diff) + spec_xml_output(hits, i + 1, no_ln, diff)
    }
}

/// The whole XML document.
pub open spec fn spec_xml_doc(hits: Seq<RenderedHit>, no_ln: bool, diff: bool) -> Seq<u8> {
    encode_utf8("<results>\n"@) + spec_xml_output(hits, 0, no_ln, diff) + encode_utf8(
        "</results>\n"@,
    )
}

fn push_xesc(out: &mut Vec<u8>, s: &String)
    ensures
        final(out)@ == old(out)@ + xesc(s@),
{
    let e = xml_escape(s.as_str());
    push_str(out, &e);
}

#[verifier::rlimit(80)]
#[verifier::spinoff_prover]
fn push_xml_hit_head(out: &mut Vec<u8>, h: &RenderedHit)
    ensures
        final(out)@ == old(out)@ + spec_xml_hit_head(*h),
{
    let ghost before = out@;
    push_lit(out, "  <hit rank=\"");
    push_u64(out, h.rank);
    push_lit(out, "\" score=\"");
    push_xesc(out, &h.score_str);
    push_lit(out, "\" path=\"");
    push_xesc(out, &h.path);
    push_lit(out, "\" start=\"");
    push_u64(out, h.start);
    push_lit(out, "\" end=\"");
    push_u64(out, h.end);
    push_lit(out, "\" lang=\"");
    push_xesc(out, &h.lang);
    push_lit(out, "\">\n");
    proof {
        assert(out@ =~= before + spec_xml_hit_head(*h));
    }
}

#[verifier::rlimit(60)]
#[verifier::spinoff_prover]
fn push_xml_line(out: &mut Vec<u8>, line: &String, ln: u64, no_ln: bool, diff: bool)
    ensures
        final(out)@ == old(out)@ + spec_xml_line(line@, ln as nat, no_ln, diff),
{
    let ghost before = out@;
    push_lit(out, "      <line");
    if !no_ln {
        push_lit(out, " n=\"");
        push_u64(out, ln);
        push_lit(out, "\"");
    }
    if diff {
        push_lit(out, " op=\"add\"");
    }
    push_lit(out, ">");
    push_xesc(out, line);
    push_lit(out, "</line>\n");
    proof {
        assert(out@ =~= before + spec_xml_line(line@, ln as nat, no_ln, diff));
    }
}

/// Render the XML output.
#[verifier::rlimit(100)]
#[verifier::spinoff_prover]
pub fn render_xml(hits: &Vec<RenderedHit>, no_ln: bool, diff: bool) -> (out: Vec<u8>)
    ensures
        out@ == spec_xml_doc(hits@, no_ln, diff),
{
    let mut out: Vec<u8> = Vec::new();
    push_lit(&mut out, "<results>\n");
    let ghost mid = out@;
    let ghost mut acc: Seq<u8> = Seq::empty();
    proof {
        assert(out@ =~= mid + acc);
    }
    let mut i: usize = 0;
    while i < hits.len()
        invariant
            i <= hits@.len(),
            out@ == mid + acc,
            mid == encode_utf8("<results>\n"@),
            spec_xml_output(hits@, 0, no_ln, diff) == acc + spec_xml_output(
                hits@,
                i as int,
                no_ln,
                diff,
            ),
        decreases hits@.len() - i,
    {
        let ghost piece_start = out@;
        let h = &hits[i];
        push_xml_hit_head(&mut out, h);
        let ghost after_head = out@;
        match &h.snippet {
            None => {
                push_lit(&mut out, "  </hit>\n");
            },
            Some(lines) => {
                push_lit(&mut out, "    <snippet>\n");
                let ghost lseq = lines@.map_values(|l: String| l@);
                let ghost mid2 = out@;
                let ghost mut acc2: Seq<u8> = Seq::empty();
                proof {
                    assert(out@ =~= mid2 + acc2);
                }
                let mut j: usize = 0;
                while j < lines.len()
                    invariant
                        j <= lines@.len(),
                        lseq == lines@.map_values(|l: String| l@),
                        out@ == mid2 + acc2,
                        spec_xml_lines(lseq, h.start as nat, 0, no_ln, diff) == acc2
                            + spec_xml_lines(lseq, h.start as nat, j as int, no_ln, diff),
                    decreases lines@.len() - j,
                {
                    let ghost piece2 = out@;
                    let j64: u64 = j as u64;
                    let ln: u64 = if h.start <= u64::MAX - j64 {
                        h.start + j64
                    } else {
                        u64::MAX
                    };
                    push_xml_line(&mut out, &lines[j], ln, no_ln, diff);
                    proof {
                        let lnn: nat = if h.start as nat + j as nat <= u64::MAX as nat {
                            (h.start as nat + j as nat) as nat
                        } else {
                            u64::MAX as nat
                        };
                        assert(ln as nat == lnn);
                        assert(lseq[j as int] == lines@[j as int]@);
                        let piece = spec_xml_line(lseq[j as int], lnn, no_ln, diff);
                        assert(out@ =~= piece2 + piece);
                        assert(spec_xml_lines(lseq, h.start as nat, j as int, no_ln, diff)
                            == piece + spec_xml_lines(
                            lseq,
                            h.start as nat,
                            j as int + 1,
                            no_ln,
                            diff,
                        ));
                        acc2 = acc2 + piece;
                        assert(out@ =~= mid2 + acc2);
                        assert(spec_xml_lines(lseq, h.start as nat, 0, no_ln, diff) =~= acc2
                            + spec_xml_lines(lseq, h.start as nat, j as int + 1, no_ln, diff));
                    }
                    j = j + 1;
                }
                proof {
                    assert(spec_xml_lines(lseq, h.start as nat, j as int, no_ln, diff) =~= Seq::<
                        u8,
                    >::empty());
                    assert(acc2 + Seq::<u8>::empty() =~= acc2);
                }
                push_lit(&mut out, "    </snippet>\n  </hit>\n");
            },
        }
        proof {
            let piece = spec_xml_hit(hits@[i as int], no_ln, diff);
            assert(after_head == piece_start + spec_xml_hit_head(hits@[i as int]));
            assert(out@ =~= piece_start + piece);
            assert(spec_xml_output(hits@, i as int, no_ln, diff) == piece + spec_xml_output(
                hits@,
                i as int + 1,
                no_ln,
                diff,
            ));
            acc = acc + piece;
            assert(out@ =~= mid + acc);
            assert(spec_xml_output(hits@, 0, no_ln, diff) =~= acc + spec_xml_output(
                hits@,
                i as int + 1,
                no_ln,
                diff,
            ));
        }
        i = i + 1;
    }
    proof {
        assert(spec_xml_output(hits@, i as int, no_ln, diff) =~= Seq::<u8>::empty());
        assert(acc + Seq::<u8>::empty() =~= acc);
    }
    push_lit(&mut out, "</results>\n");
    proof {
        assert(out@ =~= spec_xml_doc(hits@, no_ln, diff));
    }
    out
}

} // verus!
