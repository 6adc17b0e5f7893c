//! The chunk metadata file: one JSON object per chunk, one per line, in id
//! order. Writing and reading invert one another, so a file written here
//! reads back as the same rows.

use vstd::prelude::*;
use vstd::utf8::encode_utf8;
use vstd::utf8::valid_utf8;
use crate::bytesutil::str_bytes;
use crate::bytesutil::check_utf8;
use crate::bytesutil::bytes_to_string;
use crate::bytesutil::dec_bytes;
use crate::bytesutil::u64_to_dec;
use crate::bytesutil::usize_to_dec;
use crate::bytesutil::spec_starts_with;
use crate::jsonio::esc_json;
use crate::jsonio::escape_json_bytes;
use crate::jsonio::spec_unescape;
use crate::jsonio::parse_json_string;
use crate::jsonio::spec_parse_u64_at;
use crate::jsonio::parse_u64_at;
use crate::jsonio::expect_lit;

verus! {

broadcast use vstd::utf8::group_utf8_lib;

/// One chunk's metadata: its dense id, the file it came from, its 1-based
/// line range, language tag, content digest, and preview text.
#[derive(Debug, Clone)]
pub struct MetaRow {
    pub id: u64,
    pub path: String,
    pub start: usize,
    pub end: usize,
    pub lang: String,
    pub sha256: String,
    pub preview: String,
}

/// The view of a row: its id, line range, and the encoded bytes of its
/// text fields.
pub open spec fn meta_row_view(r: MetaRow) -> (u64, Seq<u8>, int, int, Seq<u8>, Seq<u8>, Seq<
    u8,
>) {
    (
        r.id,
        encode_utf8(r.path@),
        r.start as int,
        r.end as int,
        encode_utf8(r.lang@),
        encode_utf8(r.sha256@),
        encode_utf8(r.preview@),
    )
}

/// A quoted, escaped JSON string with its closing quote.
pub open spec fn quoted(s: Seq<u8>) -> Seq<u8> {
    seq![0x22u8] + esc_json(s) + seq![0x22u8]
}

/// A field separator and key: `,"key":`.
pub open spec fn field_key(key: Seq<u8>) -> Seq<u8> {
    seq![0x2cu8] + key
}

/// The bytes of one metadata line (without its newline).
pub open spec fn spec_meta_row_bytes(r: MetaRow) -> Seq<u8> {
    encode_utf8("{\"id\":"@) + dec_bytes(r.id as nat) + field_key(encode_utf8("\"path\":"@))
        + quoted(encode_utf8(r.path@)) + field_key(encode_utf8("\"start\":"@)) + dec_bytes(
        r.start as nat,
    ) + field_key(encode_utf8("\"end\":"@)) + dec_bytes(r.end as nat) + field_key(
        encode_utf8("\"lang\":"@),
    ) + quoted(encode_utf8(r.lang@)) + field_key(encode_utf8("\"sha256\":"@)) + quoted(
        encode_utf8(r.sha256@),
    ) + field_key(encode_utf8("\"preview\":"@)) + quoted(encode_utf8(r.preview@)) + seq![0x7du8]
}

/// The bytes of the whole file: each row's line followed by a newline.
pub open spec fn spec_meta_file_bytes(rows: Seq<MetaRow>) -> Seq<u8>
    decreases rows.len()
{
    if rows.len() == 0 {
        Seq::empty()
    } else {
        spec_meta_row_bytes(rows[0]) + seq![0x0au8] + spec_meta_file_bytes(rows.drop_first())
    }
}

/// Append the UTF-8 bytes of a literal.
fn push_lit(out: &mut Vec<u8>, lit: &str)
    ensures
        final(out)@ == old(out)@ + encode_utf8(lit@),
{
    let mut b = str_bytes(lit);
    out.append(&mut b);
}

/// Append an escaped, quoted JSON string field.
fn push_quoted(out: &mut Vec<u8>, s: &String)
    ensures
        final(out)@ == old(out)@ + quoted(encode_utf8(s@)),
{
    let ghost before = out@;
    out.push(0x22);
    let sb = str_bytes(s.as_str());
    let mut eb = escape_json_bytes(&sb);
    out.append(&mut eb);
    out.push(0x22);
    proof {
        assert(out@ =~= before + quoted(encode_utf8(s@)));
    }
}

/// Append a `,"key":` field opener.
fn push_field_key(out: &mut Vec<u8>, key: &str)
    ensures
        final(out)@ == old(out)@ + field_key(encode_utf8(key@)),
{
    let ghost before = out@;
    out.push(0x2c);
    push_lit(out, key);
    proof {
        assert(out@ =~= before + field_key(encode_utf8(key@)));
    }
}

/// Render one metadata line (without its newline).
pub fn render_meta_row(r: &MetaRow) -> (out: Vec<u8>)
    ensures
        out@ == spec_meta_row_bytes(*r),
{
    let mut out: Vec<u8> = Vec::new();
    push_lit(&mut out, "{\"id\":");
    let mut idb = u64_to_dec(r.id);
    out.append(&mut idb);
    push_field_key(&mut out, "\"path\":");
    push_quoted(&mut out, &r.path);
    push_field_key(&mut out, "\"start\":");
    let mut sb = usize_to_dec(r.start);
    out.append(&mut sb);
    push_field_key(&mut out, "\"end\":");
    let mut ebn = usize_to_dec(r.end);
    out.append(&mut ebn);
    push_field_key(&mut out, "\"lang\":");
    push_quoted(&mut out, &r.lang);
    push_field_key(&mut out, "\"sha256\":");
    push_quoted(&mut out, &r.sha256);
    push_field_key(&mut out, "\"preview\":");
    push_quoted(&mut out, &r.preview);
    out.push(0x7d);
    proof {
        assert(out@ =~= spec_meta_row_bytes(*r));
    }
    out
}

/// Render the whole metadata file, rows in order, one per line.
pub fn render_meta_lines(rows: &Vec<MetaRow>) -> (out: Vec<u8>)
    ensures
        out@ == spec_meta_file_bytes(rows@),
{
    let mut out: Vec<u8> = Vec::new();
    proof {
        assert(rows@.skip(0) =~= rows@);
    }
    let mut i: usize = 0;
    while i < rows.len()
        invariant
            i <= rows@.len(),
            spec_meta_file_bytes(rows@) == out@ + spec_meta_file_bytes(rows@.skip(i as int)),
        decreases rows@.len() - i,
    {
        proof {
            let suf = rows@.skip(i as int);
            assert(suf[0] == rows@[i as int]);
            assert(suf.drop_first() =~= rows@.skip(i as int + 1));
            assert(spec_meta_file_bytes(suf) == spec_meta_row_bytes(rows@[i as int]) + seq![
                0x0au8,
            ] + spec_meta_file_bytes(rows@.skip(i as int + 1)));
        }
        let ghost before = out@;
        let mut row = render_meta_row(&rows[i]);
        out.append(&mut row);
        out.push(0x0a);
        proof {
            assert(out@ =~= before + (spec_meta_row_bytes(rows@[i as int]) + seq![0x0au8]));
            assert(out@ + spec_meta_file_bytes(rows@.skip(i as int + 1)) =~= spec_meta_file_bytes(
                rows@,
            ));
        }
        i = i + 1;
    }
    proof {
        assert(spec_meta_file_bytes(rows@.skip(i as int)) =~= Seq::<u8>::empty());
        assert(out@ + Seq::<u8>::empty() =~= out@);
    }
    out
}

/// A quoted string field after a `,"key":` opener: the content and the
/// remainder after the closing quote.
pub open spec fn spec_field_string(b: Seq<u8>, key: Seq<u8>) -> Option<(Seq<u8>, Seq<u8>)> {
    let opener = field_key(key) + seq![0x22u8];
    if !spec_starts_with(b, opener) {
        None
    } else {
        spec_unescape(b.skip(opener.len() as int))
    }
}

/// A number field after a `,"key":` opener: the value and the remainder.
pub open spec fn spec_field_u64(b: Seq<u8>, key: Seq<u8>) -> Option<(u64, Seq<u8>)> {
    let opener = field_key(key);
    if !spec_starts_with(b, opener) {
        None
    } else {
        match spec_parse_u64_at(b.skip(opener.len() as int)) {
            None => None,
            Some(p) => Some((p.0, b.skip(opener.len() as int).skip(p.1))),
        }
    }
}

/// The parse of one metadata line: the row's plain values and the
/// remainder after the closing brace, or nothing when the bytes are not
/// exactly what the writer emits (with text fields that decode as UTF-8).
pub open spec fn spec_parse_meta_line(b: Seq<u8>) -> Option<
    ((u64, Seq<u8>, int, int, Seq<u8>, Seq<u8>, Seq<u8>), Seq<u8>),
> {
    let l0 = encode_utf8("{\"id\":"@);
    if !spec_starts_with(b, l0) {
        None
    } else {
        match spec_parse_u64_at(b.skip(l0.len() as int)) {
            None => None,
            Some(idp) => {
                let b1 = b.skip(l0.len() as int).skip(idp.1);
                match spec_field_string(b1, encode_utf8("\"path\":"@)) {
                    None => None,
                    Some(pp) => match spec_field_u64(pp.1, encode_utf8("\"start\":"@)) {
                        None => None,
                        Some(sp) => match spec_field_u64(sp.1, encode_utf8("\"end\":"@)) {
                            None => None,
                            Some(ep) => match spec_field_string(ep.1, encode_utf8("\"lang\":"@)) {
                                None => None,
                                Some(lp) => match spec_field_string(
                                    lp.1,
                                    encode_utf8("\"sha256\":"@),
                                ) {
                                    None => None,
                                    Some(hp) => match spec_field_string(
                                        hp.1,
                                        encode_utf8("\"preview\":"@),
                                    ) {
                                        None => None,
                                        Some(vp) => {
                                            let b7 = vp.1;
                                            if b7.len() >= 1 && b7[0] == 0x7d && sp.0
                                                <= usize::MAX && ep.0 <= usize::MAX && valid_utf8(
                                                pp.0,
                                            ) && valid_utf8(lp.0) && valid_utf8(hp.0)
                                                && valid_utf8(vp.0) {
                                                Some(
                                                    (
                                                        (
                                                            idp.0,
                                                            pp.0,
                                                            sp.0 as int,
                                                            ep.0 as int,
                                                            lp.0,
                                                            hp.0,
                                                            vp.0,
                                                        ),
                                                        b7.drop_first(),
                                                    ),
                                                )
                                            } else {
                                                None
                                            }
                                        },
                                    },
                                },
                            },
                        },
                    },
                }
            },
        }
    }
}

/// Expect one byte at `from`.
fn expect_byte(v: &[u8], from: usize, b: u8) -> (r: Option<usize>)
    requires
        from <= v@.len(),
    ensures
        r is Some ==> from < v@.len() && v@[from as int] == b && r->0 == from + 1,
        r is None ==> !(from < v@.len() && v@[from as int] == b),
{
    if from < v.len() && v[from] == b {
        Some(from + 1)
    } else {
        None
    }
}

/// Parse a quoted string field with its `,"key":` opener at `from`.
fn parse_field_string(v: &[u8], from: usize, key: &str) -> (r: Option<(Vec<u8>, usize)>)
    requires
        from <= v@.len(),
    ensures
        ({
            let sp = spec_field_string(
                v@.subrange(from as int, v@.len() as int),
                encode_utf8(key@),
            );
            match (r, sp) {
                (Some(p), Some(q)) => {
                    &&& p.0@ == q.0
                    &&& from < p.1 <= v@.len()
                    &&& v@.subrange(p.1 as int, v@.len() as int) == q.1
                },
                (None, None) => true,
                _ => false,
            }
        }),
{
    let ghost suf = v@.subrange(from as int, v@.len() as int);
    let ghost key_b = encode_utf8(key@);
    let ghost opener = field_key(key_b) + seq![0x22u8];
    let i1 = match expect_byte(v, from, 0x2c) {
        None => {
            proof {
                if spec_starts_with(suf, opener) {
                    assert(suf.subrange(0, opener.len() as int)[0] == suf[0]);
                    assert(suf[0] == v@[from as int]);
                    assert(false);
                }
            }
            return None;
        },
        Some(i) => i,
    };
    let ghost suf1 = v@.subrange(i1 as int, v@.len() as int);
    let i2 = match expect_lit(v, i1, key) {
        None => {
            proof {
                if spec_starts_with(suf, opener) {
                    assert forall|j: int| 0 <= j < key_b.len() implies suf1.subrange(
                        0,
                        key_b.len() as int,
                    )[j] == key_b[j] by {
                        assert(suf1[j] == suf[1 + j]);
                        assert(suf.subrange(0, opener.len() as int)[1 + j] == suf[1 + j]);
                        assert(opener[1 + j] == key_b[j]);
                    }
                    assert(suf1.subrange(0, key_b.len() as int) =~= key_b);
                    assert(spec_starts_with(suf1, key_b));
                    assert(false);
                }
            }
            return None;
        },
        Some(i) => i,
    };
    let i3 = match expect_byte(v, i2, 0x22) {
        None => {
            proof {
                if spec_starts_with(suf, opener) {
                    assert(suf.subrange(0, opener.len() as int)[1 + key_b.len() as int] == suf[1
                        + key_b.len() as int]);
                    assert(opener[1 + key_b.len() as int] == 0x22);
                    assert(v@[i2 as int] == suf[1 + key_b.len() as int]);
                    assert(false);
                }
            }
            return None;
        },
        Some(i) => i,
    };
    proof {
        if !spec_starts_with(suf, opener) {
            assert(spec_starts_with(suf1, key_b));
            assert forall|j: int| 0 <= j < opener.len() implies suf.subrange(
                0,
                opener.len() as int,
            )[j] == opener[j] by {
                assert(suf.subrange(0, opener.len() as int)[j] == suf[j]);
                if j == 0 {
                    assert(suf[0] == v@[from as int]);
                } else if j < 1 + key_b.len() {
                    assert(suf1.subrange(0, key_b.len() as int)[j - 1] == suf1[j - 1]);
                    assert(suf1[j - 1] == suf[j]);
                    assert(opener[j] == key_b[j - 1]);
                } else {
                    assert(suf[j] == v@[i2 as int]);
                }
            }
            assert(suf.subrange(0, opener.len() as int) =~= opener);
            assert(false);
        }
        assert(v@.subrange(i3 as int, v@.len() as int) =~= suf.skip(opener.len() as int));
    }
    match parse_json_string(v, i3) {
        None => None,
        Some((content, j)) => Some((content, j)),
    }
}

/// Parse a number field with its `,"key":` opener at `from`.
fn parse_field_u64(v: &[u8], from: usize, key: &str) -> (r: Option<(u64, usize)>)
    requires
        from <= v@.len(),
    ensures
        ({
            let sp = spec_field_u64(v@.subrange(from as int, v@.len() as int), encode_utf8(key@));
            match (r, sp) {
                (Some(p), Some(q)) => {
                    &&& p.0 == q.0
                    &&& from < p.1 <= v@.len()
                    &&& v@.subrange(p.1 as int, v@.len() as int) == q.1
                },
                (None, None) => true,
                _ => false,
            }
        }),
{
    let ghost suf = v@.subrange(from as int, v@.len() as int);
    let ghost key_b = encode_utf8(key@);
    let ghost opener = field_key(key_b);
    let i1 = match expect_byte(v, from, 0x2c) {
        None => {
            proof {
                if spec_starts_with(suf, opener) {
                    assert(suf.subrange(0, opener.len() as int)[0] == suf[0]);
                    assert(suf[0] == v@[from as int]);
                    assert(false);
                }
            }
            return None;
        },
        Some(i) => i,
    };
    let ghost suf1 = v@.subrange(i1 as int, v@.len() as int);
    let i2 = match expect_lit(v, i1, key) {
        None => {
            proof {
                if spec_starts_with(suf, opener) {
                    assert forall|j: int| 0 <= j < key_b.len() implies suf1.subrange(
                        0,
                        key_b.len() as int,
                    )[j] == key_b[j] by {
                        assert(suf1[j] == suf[1 + j]);
                        assert(suf.subrange(0, opener.len() as int)[1 + j] == suf[1 + j]);
                        assert(opener[1 + j] == key_b[j]);
                    }
                    assert(suf1.subrange(0, key_b.len() as int) =~= key_b);
                    assert(spec_starts_with(suf1, key_b));
                    assert(false);
                }
            }
            return None;
        },
        Some(i) => i,
    };
    proof {
        if !spec_starts_with(suf, opener) {
            assert(spec_starts_with(suf1, key_b));
            assert forall|j: int| 0 <= j < opener.len() implies suf.subrange(
                0,
                opener.len() as int,
            )[j] == opener[j] by {
                assert(suf.subrange(0, opener.len() as int)[j] == suf[j]);
                if j == 0 {
                    assert(suf[0] == v@[from as int]);
                } else {
                    assert(suf1.subrange(0, key_b.len() as int)[j - 1] == suf1[j - 1]);
                    assert(suf1[j - 1] == suf[j]);
                    assert(opener[j] == key_b[j - 1]);
                }
            }
            assert(suf.subrange(0, opener.len() as int) =~= opener);
            assert(false);
        }
        assert(v@.subrange(i2 as int, v@.len() as int) =~= suf.skip(opener.len() as int));
    }
    match parse_u64_at(v, i2) {
        None => None,
        Some((val, j)) => {
            proof {
                assert(v@.subrange(j as int, v@.len() as int) =~= suf.skip(
                    opener.len() as int,
                ).skip((spec_parse_u64_at(suf.skip(opener.len() as int))->0).1));
            }
            Some((val, j))
        },
    }
}

/// Parse one metadata line beginning at `from`: the row and the index
/// after its closing brace.
pub fn parse_meta_line(v: &[u8], from: usize) -> (r: Option<(MetaRow, usize)>)
    requires
        from <= v@.len(),
    ensures
        ({
            let sp = spec_parse_meta_line(v@.subrange(from as int, v@.len() as int));
            match (r, sp) {
                (Some(p), Some(q)) => {
                    &&& meta_row_view(p.0) == q.0
                    &&& from < p.1 <= v@.len()
                    &&& v@.subrange(p.1 as int, v@.len() as int) == q.1
                },
                (None, None) => true,
                _ => false,
            }
        }),
{
    let ghost suf = v@.subrange(from as int, v@.len() as int);
    let ghost l0 = encode_utf8("{\"id\":"@);
    let i0 = match expect_lit(v, from, "{\"id\":") {
        None => {
            return None;
        },
        Some(i) => i,
    };
    proof {
        assert(v@.subrange(i0 as int, v@.len() as int) =~= suf.skip(l0.len() as int));
    }
    let (id, i1) = match parse_u64_at(v, i0) {
        None => {
            return None;
        },
        Some(p) => p,
    };
    proof {
        assert(v@.subrange(i1 as int, v@.len() as int) =~= suf.skip(l0.len() as int).skip(
            (spec_parse_u64_at(suf.skip(l0.len() as int))->0).1,
        ));
    }
    let (path_b, i2) = match parse_field_string(v, i1, "\"path\":") {
        None => {
            return None;
        },
        Some(p) => p,
    };
    let (start64, i3) = match parse_field_u64(v, i2, "\"start\":") {
        None => {
            return None;
        },
        Some(p) => p,
    };
    let (end64, i4) = match parse_field_u64(v, i3, "\"end\":") {
        None => {
            return None;
        },
        Some(p) => p,
    };
    let (lang_b, i5) = match parse_field_string(v, i4, "\"lang\":") {
        None => {
            return None;
        },
        Some(p) => p,
    };
    let (sha_b, i6) = match parse_field_string(v, i5, "\"sha256\":") {
        None => {
            return None;
        },
        Some(p) => p,
    };
    let (pv_b, i7) = match parse_field_string(v, i6, "\"preview\":") {
        None => {
            return None;
        },
        Some(p) => p,
    };
    let ghost b7 = v@.subrange(i7 as int, v@.len() as int);
    let i8 = match expect_byte(v, i7, 0x7d) {
        None => {
            proof {
                if b7.len() >= 1 {
                    assert(b7[0] == v@[i7 as int]);
                }
            }
            return None;
        },
        Some(i) => i,
    };
    proof {
        assert(b7[0] == v@[i7 as int]);
    }
    if start64 > usize_max() || end64 > usize_max() {
        return None;
    }
    if !(check_utf8(&path_b) && check_utf8(&lang_b) && check_utf8(&sha_b) && check_utf8(&pv_b)) {
        return None;
    }
    proof {
        assert(v@.subrange(i8 as int, v@.len() as int) =~= b7.drop_first());
    }
    let row = MetaRow {
        id,
        path: bytes_to_string(path_b),
        start: start64 as usize,
        end: end64 as usize,
        lang: bytes_to_string(lang_b),
        sha256: bytes_to_string(sha_b),
        preview: bytes_to_string(pv_b),
    };
    Some((row, i8))
}

/// The largest usize, as a u64.
fn usize_max() -> (r: u64)
    ensures
        r == usize::MAX as u64,
{
    usize::MAX as u64
}

/// The rows denoted by a metadata file: newline-terminated rows, ending
/// exactly at the end of the bytes.
pub open spec fn spec_parse_meta_lines(b: Seq<u8>) -> Option<
    Seq<(u64, Seq<u8>, int, int, Seq<u8>, Seq<u8>, Seq<u8>)>,
>
    decreases b.len()
    via spec_parse_meta_lines_dec
{
    if b.len() == 0 {
        Some(Seq::empty())
    } else {
        match spec_parse_meta_line(b) {
            None => None,
            Some(p) => {
                if p.1.len() >= 1 && p.1[0] == 0x0a {
                    match spec_parse_meta_lines(p.1.drop_first()) {
                        None => None,
                        Some(rest) => Some(seq![p.0] + rest),
                    }
                } else {
                    None
                }
            },
        }
    }
}

/// The remainder of a parsed string is shorter than the input.
proof fn lemma_unescape_shrinks(b: Seq<u8>)
    ensures
        spec_unescape(b) is Some ==> (spec_unescape(b)->0).1.len() < b.len(),
    decreases b.len(),
{
    if b.len() > 0 {
        if b[0] == 0x22 {
        } else if b[0] == 0x5c {
            if b.len() >= 2 {
                if b[1] == 0x75 {
                    if b.len() >= 6 {
                        lemma_unescape_shrinks(b.subrange(6, b.len() as int));
                    }
                } else {
                    lemma_unescape_shrinks(b.subrange(2, b.len() as int));
                }
            }
        } else {
            lemma_unescape_shrinks(b.drop_first());
        }
    }
}

proof fn lemma_field_string_shrinks(b: Seq<u8>, key: Seq<u8>)
    ensures
        spec_field_string(b, key) is Some ==> (spec_field_string(b, key)->0).1.len() < b.len(),
{
    if spec_field_string(b, key) is Some {
        let opener = field_key(key) + seq![0x22u8];
        lemma_unescape_shrinks(b.skip(opener.len() as int));
    }
}

proof fn lemma_field_u64_shrinks(b: Seq<u8>, key: Seq<u8>)
    ensures
        spec_field_u64(b, key) is Some ==> (spec_field_u64(b, key)->0).1.len() <= b.len(),
{
    if spec_field_u64(b, key) is Some {
        let opener = field_key(key);
        let s1 = b.skip(opener.len() as int);
        crate::bytesutil::lemma_digit_run_from_bound(s1, 0);
    }
}

/// The remainder of a parsed row is shorter than the input.
proof fn lemma_parse_meta_line_shrinks(b: Seq<u8>)
    ensures
        spec_parse_meta_line(b) is Some ==> (spec_parse_meta_line(b)->0).1.len() < b.len(),
{
    if spec_parse_meta_line(b) is Some {
        let l0 = encode_utf8("{\"id\":"@);
        let b1 = b.skip(l0.len() as int).skip((spec_parse_u64_at(b.skip(l0.len() as int))->0).1);
        lemma_field_string_shrinks(b1, encode_utf8("\"path\":"@));
        let b2 = (spec_field_string(b1, encode_utf8("\"path\":"@))->0).1;
        lemma_field_u64_shrinks(b2, encode_utf8("\"start\":"@));
        let b3 = (spec_field_u64(b2, encode_utf8("\"start\":"@))->0).1;
        lemma_field_u64_shrinks(b3, encode_utf8("\"end\":"@));
        let b4 = (spec_field_u64(b3, encode_utf8("\"end\":"@))->0).1;
        lemma_field_string_shrinks(b4, encode_utf8("\"lang\":"@));
        let b5 = (spec_field_string(b4, encode_utf8("\"lang\":"@))->0).1;
        lemma_field_string_shrinks(b5, encode_utf8("\"sha256\":"@));
        let b6 = (spec_field_string(b5, encode_utf8("\"sha256\":"@))->0).1;
        lemma_field_string_shrinks(b6, encode_utf8("\"preview\":"@));
        let b7 = (spec_field_string(b6, encode_utf8("\"preview\":"@))->0).1;
        crate::bytesutil::lemma_digit_run_from_bound(b.skip(l0.len() as int), 0);
        assert(b7.len() < b1.len());
        assert(b1.len() <= b.len());
    }
}

#[via_fn]
proof fn spec_parse_meta_lines_dec(b: Seq<u8>) {
    if b.len() != 0 {
        lemma_parse_meta_line_shrinks(b);
    }
}

/// Parse the metadata file into rows.
pub fn parse_meta_lines(v: &[u8]) -> (r: Option<Vec<MetaRow>>)
    ensures
        ({
            let sp = spec_parse_meta_lines(v@);
            match (r, sp) {
                (Some(rows), Some(ts)) => {
                    &&& rows@.len() == ts.len()
                    &&& forall|k: int|
                        0 <= k < ts.len() ==> meta_row_view(#[trigger] rows@[k]) == ts[k]
                },
                (None, None) => true,
                _ => false,
            }
        }),
{
    let ghost full = spec_parse_meta_lines(v@);
    proof {
        assert(v@.subrange(0, v@.len() as int) =~= v@);
    }
    let mut rows: Vec<MetaRow> = Vec::new();
    let mut i: usize = 0;
    loop
        invariant_except_break
            i <= v@.len(),
            full == spec_parse_meta_lines(v@),
            ({
                let sp = spec_parse_meta_lines(v@.subrange(i as int, v@.len() as int));
                &&& (full is Some <==> sp is Some)
                &&& (full is Some ==> full->0 == rows@.map_values(|r: MetaRow| meta_row_view(r))
                    + sp->0)
            }),
        ensures
            full is Some,
            full->0 == rows@.map_values(|r: MetaRow| meta_row_view(r)),
        decreases v@.len() - i,
    {
        let ghost sufi = v@.subrange(i as int, v@.len() as int);
        if i >= v.len() {
            proof {
                assert(sufi.len() == 0);
                assert(spec_parse_meta_lines(sufi) == Some(Seq::<
                    (u64, Seq<u8>, int, int, Seq<u8>, Seq<u8>, Seq<u8>),
                >::empty()));
                assert(rows@.map_values(|r: MetaRow| meta_row_view(r)) + Seq::<
                    (u64, Seq<u8>, int, int, Seq<u8>, Seq<u8>, Seq<u8>),
                >::empty() =~= rows@.map_values(|r: MetaRow| meta_row_view(r)));
            }
            break;
        }
        let (row, j) = match parse_meta_line(v, i) {
            None => {
                return None;
            },
            Some(p) => p,
        };
        let j2 = match expect_byte(v, j, 0x0a) {
            None => {
                proof {
                    let q = spec_parse_meta_line(sufi)->0;
                    if q.1.len() >= 1 {
                        assert(q.1[0] == v@[j as int]);
                    }
                }
                return None;
            },
            Some(x) => x,
        };
        let ghost before = rows@;
        rows.push(row);
        proof {
            let q = spec_parse_meta_line(sufi)->0;
            assert(q.1[0] == v@[j as int]);
            assert(v@.subrange(j2 as int, v@.len() as int) =~= q.1.drop_first());
            assert(rows@.map_values(|r: MetaRow| meta_row_view(r)) =~= before.map_values(
                |r: MetaRow| meta_row_view(r),
            ).push(meta_row_view(row)));
            let sp2 = spec_parse_meta_lines(v@.subrange(j2 as int, v@.len() as int));
            if full is Some {
                assert(full->0 =~= rows@.map_values(|r: MetaRow| meta_row_view(r)) + sp2->0);
            }
        }
        i = j2;
    }
    proof {
        let ts = full->0;
        assert(ts.len() == rows@.len());
        assert forall|k: int| 0 <= k < ts.len() implies meta_row_view(#[trigger] rows@[k])
            == ts[k] by {
            assert(ts[k] == rows@.map_values(|r: MetaRow| meta_row_view(r))[k]);
        }
    }
    Some(rows)
}


/// The first row carrying the given id, by position.
pub open spec fn spec_find_row(rows: Seq<MetaRow>, id: u64) -> int
    decreases rows.len()
{
    if rows.len() == 0 {
        -1
    } else if rows[0].id == id {
        0
    } else {
        let r = spec_find_row(rows.drop_first(), id);
        if r < 0 {
            -1
        } else {
            r + 1
        }
    }
}

/// Join a result id with its metadata row: the position of the first row
/// carrying the id, or nothing when no row does.
pub fn find_meta_row(rows: &Vec<MetaRow>, id: u64) -> (r: Option<usize>)
    ensures
        r is Some ==> r->0 < rows@.len() && spec_find_row(rows@, id) == r->0 && rows@[
            r->0 as int
        ].id == id,
        r is None ==> spec_find_row(rows@, id) == -1 && forall|k: int|
            0 <= k < rows@.len() ==> (#[trigger] rows@[k]).id != id,
{
    let ghost s = rows@;
    proof {
        lemma_find_row(s, id);
    }
    let mut i: usize = 0;
    while i < rows.len()
        invariant
            i <= s.len(),
            rows@ == s,
            forall|k: int| 0 <= k < i ==> (#[trigger] s[k]).id != id,
        decreases s.len() - i,
    {
        if rows[i].id == id {
            proof {
                lemma_find_row(s, id);
            }
            return Some(i);
        }
        i = i + 1;
    }
    proof {
        lemma_find_row(s, id);
    }
    None
}

proof fn lemma_find_row(rows: Seq<MetaRow>, id: u64)
    ensures
        spec_find_row(rows, id) == -1 ==> forall|k: int|
            0 <= k < rows.len() ==> (#[trigger] rows[k]).id != id,
        spec_find_row(rows, id) != -1 ==> {
            let r = spec_find_row(rows, id);
            &&& 0 <= r < rows.len()
            &&& rows[r].id == id
            &&& forall|k: int| 0 <= k < r ==> (#[trigger] rows[k]).id != id
        },
    decreases rows.len(),
{
    if rows.len() > 0 && rows[0].id != id {
        lemma_find_row(rows.drop_first(), id);
        assert(forall|k: int|
            0 < k < rows.len() ==> (#[trigger] rows[k]) == rows.drop_first()[k - 1]);
    }
}

// ---------------------------------------------------------------------------
// Round trip
// ---------------------------------------------------------------------------

/// A written row, followed by anything, reads back as itself with that
/// remainder.
#[verifier::rlimit(100)]
#[verifier::spinoff_prover]
pub proof fn lemma_meta_row_roundtrip(r: MetaRow, tail: Seq<u8>)
    ensures
        spec_parse_meta_line(spec_meta_row_bytes(r) + tail) == Some((meta_row_view(r), tail)),
{
    broadcast use vstd::utf8::group_utf8_lib;

    let l0 = encode_utf8("{\"id\":"@);
    let path_b = encode_utf8(r.path@);
    let lang_b = encode_utf8(r.lang@);
    let sha_b = encode_utf8(r.sha256@);
    let pv_b = encode_utf8(r.preview@);
    let t13 = seq![0x7du8] + tail;
    let t12 = quoted(pv_b) + t13;
    let t11 = field_key(encode_utf8("\"preview\":"@)) + t12;
    let t10 = quoted(sha_b) + t11;
    let t9 = field_key(encode_utf8("\"sha256\":"@)) + t10;
    let t8 = quoted(lang_b) + t9;
    let t7 = field_key(encode_utf8("\"lang\":"@)) + t8;
    let t6 = dec_bytes(r.end as nat) + t7;
    let t5 = field_key(encode_utf8("\"end\":"@)) + t6;
    let t4 = dec_bytes(r.start as nat) + t5;
    let t3 = field_key(encode_utf8("\"start\":"@)) + t4;
    let t2 = quoted(path_b) + t3;
    let t1 = field_key(encode_utf8("\"path\":"@)) + t2;
    let t0 = dec_bytes(r.id as nat) + t1;
    let b = spec_meta_row_bytes(r) + tail;
    let a1 = l0;
    let a2 = dec_bytes(r.id as nat);
    let a3 = field_key(encode_utf8("\"path\":"@));
    let a4 = quoted(path_b);
    let a5 = field_key(encode_utf8("\"start\":"@));
    let a6 = dec_bytes(r.start as nat);
    let a7 = field_key(encode_utf8("\"end\":"@));
    let a8 = dec_bytes(r.end as nat);
    let a9 = field_key(encode_utf8("\"lang\":"@));
    let a10 = quoted(lang_b);
    let a11 = field_key(encode_utf8("\"sha256\":"@));
    let a12 = quoted(sha_b);
    let a13 = field_key(encode_utf8("\"preview\":"@));
    let a14 = quoted(pv_b);
    let a15 = seq![0x7du8];
    crate::bytesutil::lemma_concat_assoc(
        a1 + a2 + a3 + a4 + a5 + a6 + a7 + a8 + a9 + a10 + a11 + a12 + a13 + a14,
        a15,
        tail,
    );
    crate::bytesutil::lemma_concat_assoc(
        a1 + a2 + a3 + a4 + a5 + a6 + a7 + a8 + a9 + a10 + a11 + a12 + a13,
        a14,
        a15 + tail,
    );
    crate::bytesutil::lemma_concat_assoc(
        a1 + a2 + a3 + a4 + a5 + a6 + a7 + a8 + a9 + a10 + a11 + a12,
        a13,
        a14 + (a15 + tail),
    );
    crate::bytesutil::lemma_concat_assoc(
        a1 + a2 + a3 + a4 + a5 + a6 + a7 + a8 + a9 + a10 + a11,
        a12,
        a13 + (a14 + (a15 + tail)),
    );
    crate::bytesutil::lemma_concat_assoc(
        a1 + a2 + a3 + a4 + a5 + a6 + a7 + a8 + a9 + a10,
        a11,
        a12 + (a13 + (a14 + (a15 + tail))),
    );
    crate::bytesutil::lemma_concat_assoc(
        a1 + a2 + a3 + a4 + a5 + a6 + a7 + a8 + a9,
        a10,
        a11 + (a12 + (a13 + (a14 + (a15 + tail)))),
    );
    crate::bytesutil::lemma_concat_assoc(
        a1 + a2 + a3 + a4 + a5 + a6 + a7 + a8,
        a9,
        a10 + (a11 + (a12 + (a13 + (a14 + (a15 + tail))))),
    );
    crate::bytesutil::lemma_concat_assoc(
        a1 + a2 + a3 + a4 + a5 + a6 + a7,
        a8,
        a9 + (a10 + (a11 + (a12 + (a13 + (a14 + (a15 + tail)))))),
    );
    crate::bytesutil::lemma_concat_assoc(
        a1 + a2 + a3 + a4 + a5 + a6,
        a7,
        a8 + (a9 + (a10 + (a11 + (a12 + (a13 + (a14 + (a15 + tail))))))),
    );
    crate::bytesutil::lemma_concat_assoc(
        a1 + a2 + a3 + a4 + a5,
        a6,
        a7 + (a8 + (a9 + (a10 + (a11 + (a12 + (a13 + (a14 + (a15 + tail)))))))),
    );
    crate::bytesutil::lemma_concat_assoc(
        a1 + a2 + a3 + a4,
        a5,
        a6 + (a7 + (a8 + (a9 + (a10 + (a11 + (a12 + (a13 + (a14 + (a15 + tail))))))))),
    );
    crate::bytesutil::lemma_concat_assoc(
        a1 + a2 + a3,
        a4,
        a5 + (a6 + (a7 + (a8 + (a9 + (a10 + (a11 + (a12 + (a13 + (a14 + (a15 + tail)))))))))),
    );
    crate::bytesutil::lemma_concat_assoc(
        a1 + a2,
        a3,
        a4 + (a5 + (a6 + (a7 + (a8 + (a9 + (a10 + (a11 + (a12 + (a13 + (a14 + (a15
            + tail))))))))))),
    );
    crate::bytesutil::lemma_concat_assoc(
        a1,
        a2,
        a3 + (a4 + (a5 + (a6 + (a7 + (a8 + (a9 + (a10 + (a11 + (a12 + (a13 + (a14 + (a15
            + tail)))))))))))),
    );
    assert(b == l0 + t0);
    crate::bytesutil::lemma_concat_prefix(l0, t0);
    assert(t1[0] == 0x2c);
    crate::jsonio::lemma_parse_dec_roundtrip(r.id, t1);
    crate::bytesutil::lemma_concat_prefix(dec_bytes(r.id as nat), t1);
    assert(b.skip(l0.len() as int).skip(dec_bytes(r.id as nat).len() as int) == t1);
    lemma_field_string_roundtrip(encode_utf8("\"path\":"@), path_b, t3);
    assert(t2 == quoted(path_b) + t3);
    assert(spec_field_string(t1, encode_utf8("\"path\":"@)) == Some((path_b, t3)));
    lemma_field_u64_roundtrip(encode_utf8("\"start\":"@), r.start as u64, t5);
    assert(t5[0] == 0x2c);
    assert(spec_field_u64(t3, encode_utf8("\"start\":"@)) == Some((r.start as u64, t5)));
    lemma_field_u64_roundtrip(encode_utf8("\"end\":"@), r.end as u64, t7);
    assert(t7[0] == 0x2c);
    assert(spec_field_u64(t5, encode_utf8("\"end\":"@)) == Some((r.end as u64, t7)));
    lemma_field_string_roundtrip(encode_utf8("\"lang\":"@), lang_b, t9);
    lemma_field_string_roundtrip(encode_utf8("\"sha256\":"@), sha_b, t11);
    lemma_field_string_roundtrip(encode_utf8("\"preview\":"@), pv_b, t13);
    assert(t13[0] == 0x7d);
    assert(t13.drop_first() =~= tail);
}

/// A written string field with any remainder reads back as itself.
proof fn lemma_field_string_roundtrip(key: Seq<u8>, content: Seq<u8>, after: Seq<u8>)
    ensures
        spec_field_string(field_key(key) + (quoted(content) + after), key) == Some(
            (content, after),
        ),
{
    let opener = field_key(key) + seq![0x22u8];
    let b = field_key(key) + (quoted(content) + after);
    let inner = esc_json(content) + (seq![0x22u8] + after);
    assert(b =~= opener + inner);
    crate::bytesutil::lemma_concat_prefix(opener, inner);
    crate::jsonio::lemma_escape_unescape(content, after);
    assert(esc_json(content) + seq![0x22u8] + after =~= inner);
}

/// A written number field with any remainder reads back as itself,
/// provided the remainder does not begin with a digit.
proof fn lemma_field_u64_roundtrip(key: Seq<u8>, n: u64, after: Seq<u8>)
    requires
        after.len() == 0 || !crate::bytesutil::is_ascii_digit_byte(after[0]),
    ensures
        spec_field_u64(field_key(key) + (dec_bytes(n as nat) + after), key) == Some((n, after)),
{
    let opener = field_key(key);
    let inner = dec_bytes(n as nat) + after;
    crate::bytesutil::lemma_concat_prefix(opener, inner);
    crate::jsonio::lemma_parse_dec_roundtrip(n, after);
    crate::bytesutil::lemma_concat_prefix(dec_bytes(n as nat), after);
}

/// A written metadata file reads back as the same rows: the write/read
/// pair over `meta.jsonl` content is the identity.
#[verifier::rlimit(60)]
#[verifier::spinoff_prover]
pub proof fn lemma_meta_file_roundtrip(rows: Seq<MetaRow>)
    ensures
        spec_parse_meta_lines(spec_meta_file_bytes(rows)) == Some(
            rows.map_values(|r: MetaRow| meta_row_view(r)),
        ),
    decreases rows.len(),
{
    if rows.len() == 0 {
        assert(spec_meta_file_bytes(rows).len() == 0);
        assert(rows.map_values(|r: MetaRow| meta_row_view(r)) =~= Seq::<
            (u64, Seq<u8>, int, int, Seq<u8>, Seq<u8>, Seq<u8>),
        >::empty());
    } else {
        let rest = rows.drop_first();
        let b = spec_meta_file_bytes(rows);
        let after = seq![0x0au8] + spec_meta_file_bytes(rest);
        crate::bytesutil::lemma_concat_assoc(
            spec_meta_row_bytes(rows[0]),
            seq![0x0au8],
            spec_meta_file_bytes(rest),
        );
        assert(b == spec_meta_row_bytes(rows[0]) + after);
        lemma_meta_row_roundtrip(rows[0], after);
        assert(b.len() > 0) by {
            assert(b.len() >= after.len());
        }
        assert(after[0] == 0x0a);
        assert(after.drop_first() =~= spec_meta_file_bytes(rest));
        lemma_meta_file_roundtrip(rest);
        assert(rows.map_values(|r: MetaRow| meta_row_view(r)) =~= seq![meta_row_view(rows[0])]
            + rest.map_values(|r: MetaRow| meta_row_view(r)));
    }
}

} // verus!
