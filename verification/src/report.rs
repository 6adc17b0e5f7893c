//! Report-side helpers: the persisted report's plain records, text
//! sampling for large files, and title casing for display.

use vstd::prelude::*;
use vstd::utf8::encode_utf8;
use vstd::utf8::decode_utf8;
use vstd::utf8::valid_utf8;
use crate::bytesutil::str_bytes;
use crate::bytesutil::str_chars;
use crate::bytesutil::chars_to_string;
use crate::bytesutil::check_utf8;
use crate::bytesutil::bytes_to_string;
use crate::bytesutil::dec_bytes;
use crate::bytesutil::u64_to_dec;
use crate::bytesutil::subvec;
use crate::chunk::snap_back_cont;
use crate::scan::count_eq;
use crate::scan::count_byte;
use crate::ignore::chars_lt;
use crate::ignore::str_lt;
use crate::ignore::lemma_chars_lt_asym;
use crate::digest::sha256_of;
use crate::digest::hex_chars;
use crate::digest::sha256_hex;
use vstd::bytes::spec_u64_to_le_bytes;
use vstd::bytes::u64_to_le_bytes;

verus! {

/// A snapshot of the repository's version-control state.
#[derive(Debug, Clone)]
pub struct GitSnapshot {
    pub branch: Option<String>,
    pub head: Option<String>,
    pub is_dirty: bool,
    pub commit_hash: Option<String>,
}

/// The body of a saved report.
#[derive(Debug, Clone)]
pub struct ReportBody {
    pub markdown: String,
}

/// Token counts reported for a generation.
#[derive(Debug, Clone)]
pub struct TokenUsage {
    pub prompt_tokens: Option<u32>,
    pub completion_tokens: Option<u32>,
    pub total_tokens: Option<u32>,
}

/// One sampled file of a review: its relative path, size, modification
/// instant in seconds since the epoch (when known), content digest,
/// whether it looked binary, and its sampled text.
#[derive(Debug, Clone)]
pub struct FileEntry {
    pub path: String,
    pub size_bytes: u64,
    pub modified_at: Option<i64>,
    pub sha256: String,
    pub binary: bool,
    pub sampled_text: Option<String>,
}

/// The curated inputs of a review.
#[derive(Debug, Clone)]
pub struct ReviewInputs {
    pub commit_hash: Option<String>,
    pub context_source: String,
    pub files: Vec<FileEntry>,
    pub inputs_hash: String,
}

/// A sampling buffer counts as binary when it holds a NUL byte or is not
/// valid UTF-8.
pub open spec fn spec_sample_is_binary(b: Seq<u8>) -> bool {
    count_eq(b, 0) > 0 || !valid_utf8(b)
}

/// The sampled bytes of a textual buffer: the whole buffer up to 8 KiB;
/// above that, its head, middle and tail around a note naming the sampled
/// and total sizes. Cut points move back to character boundaries.
pub open spec fn spec_sample_bytes(b: Seq<u8>, total: nat) -> Seq<u8> {
    if b.len() <= 8192 {
        b
    } else {
        let h = snap_back_cont(b, 3072);
        let ms = snap_back_cont(b, b.len() as int / 2);
        let me_raw: int = if b.len() as int / 2 + 2048 <= b.len() {
            b.len() as int / 2 + 2048
        } else {
            b.len() as int
        };
        let me0 = snap_back_cont(b, me_raw);
        let me = if me0 >= ms {
            me0
        } else {
            ms
        };
        let ts = snap_back_cont(b, b.len() - 3072);
        b.subrange(0, h) + encode_utf8("\n\n--- sampled "@) + dec_bytes(b.len()) + encode_utf8(
            " of "@,
        ) + dec_bytes(total) + encode_utf8(" bytes ---\n\n"@) + b.subrange(ms, me) + encode_utf8(
            "\n\n"@,
        ) + b.subrange(ts, b.len() as int)
    }
}

/// Move `i` back to the nearest point that does not split a character.
fn snap_cont_exec(b: &[u8], i: usize) -> (r: usize)
    requires
        i <= b@.len(),
    ensures
        r == snap_back_cont(b@, i as int),
        r <= i,
{
    let ghost s = b@;
    let mut j: usize = i;
    while j > 0 && j < b.len() && 0x80 <= b[j] && b[j] <= 0xbf
        invariant
            j <= i <= s.len(),
            b@ == s,
            snap_back_cont(s, i as int) == snap_back_cont(s, j as int),
        decreases j,
    {
        proof {
            assert(vstd::utf8::is_continuation_byte(s[j as int]));
            assert(snap_back_cont(s, j as int) == snap_back_cont(s, j as int - 1));
        }
        j = j - 1;
    }
    proof {
        assert(snap_back_cont(s, j as int) == j);
    }
    j
}

/// Classify and sample a read buffer: binary buffers yield no text; text
/// up to 8 KiB is returned whole; larger text is sampled head, middle and
/// tail with a note giving the sampled and total byte counts.
pub fn sample_text(buf: &[u8], total_size: usize) -> (r: (bool, Option<String>))
    ensures
        r.0 == spec_sample_is_binary(buf@),
        r.1 is Some <==> !r.0,
        r.1 is Some ==> r.1->0@ == (if valid_utf8(spec_sample_bytes(buf@, total_size as nat)) {
            decode_utf8(spec_sample_bytes(buf@, total_size as nat))
        } else {
            Seq::<char>::empty()
        }),
{
    let nul = count_byte(buf, 0);
    if nul > 0 {
        return (true, None);
    }
    if !check_utf8(buf) {
        return (true, None);
    }
    let n = buf.len();
    if n <= 8192 {
        let whole = subvec(buf, 0, n);
        assert(whole@ =~= buf@);
        return (false, Some(bytes_to_string(whole)));
    }
    let h = snap_cont_exec(buf, 3072);
    let ms = snap_cont_exec(buf, n / 2);
    let me_raw: usize = if n / 2 + 2048 <= n {
        n / 2 + 2048
    } else {
        n
    };
    let me0 = snap_cont_exec(buf, me_raw);
    let me = if me0 >= ms {
        me0
    } else {
        ms
    };
    let ts = snap_cont_exec(buf, n - 3072);
    let mut out = subvec(buf, 0, h);
    let mut l1 = str_bytes("\n\n--- sampled ");
    out.append(&mut l1);
    let mut d1 = u64_to_dec(n as u64);
    out.append(&mut d1);
    let mut l2 = str_bytes(" of ");
    out.append(&mut l2);
    let mut d2 = u64_to_dec(total_size as u64);
    out.append(&mut d2);
    let mut l3 = str_bytes(" bytes ---\n\n");
    out.append(&mut l3);
    let mut mid = subvec(buf, ms, me);
    out.append(&mut mid);
    let mut l4 = str_bytes("\n\n");
    out.append(&mut l4);
    let mut tail = subvec(buf, ts, n);
    out.append(&mut tail);
    proof {
        assert(dec_bytes(n as u64 as nat) == dec_bytes(buf@.len() as nat));
        assert(dec_bytes(total_size as u64 as nat) == dec_bytes(total_size as nat));
        assert(out@ =~= spec_sample_bytes(buf@, total_size as nat));
    }
    if check_utf8(&out) {
        (false, Some(bytes_to_string(out)))
    } else {
        (false, Some(new_string()))
    }
}

fn new_string() -> (r: String)
    ensures
        r@ == Seq::<char>::empty(),
{
    String::new()
}

/// The uppercase form of a character. Its value is fixed by the Unicode
/// tables; this library relies only on it being a function of the
/// character.
pub uninterp spec fn upper_chars(c: char) -> Seq<char>;

/// Relies on `char::to_uppercase`: the uppercase mapping of a character
/// depends on the character alone.
#[verifier::external_body]
fn char_to_uppercase(c: char) -> (r: String)
    ensures
        r@ == upper_chars(c),
{
    let mut s = String::new();
    for u in c.to_uppercase() {
        s.push(u);
    }
    s
}

/// Uppercase the first character of a label, leaving the rest unchanged.
pub fn title_case(s: &str) -> (r: String)
    ensures
        s@.len() == 0 ==> r@ == s@,
        s@.len() > 0 ==> r@ == upper_chars(s@[0]) + s@.skip(1),
{
    let cs = str_chars(s);
    if cs.len() == 0 {
        assert(Seq::<char>::empty() =~= s@);
        return new_string();
    }
    let mut out = char_to_uppercase(cs[0]);
    let ghost head = out@;
    let mut i: usize = 1;
    while i < cs.len()
        invariant
            1 <= i <= cs@.len(),
            cs@ == s@,
            out@ == head + s@.subrange(1, i as int),
        decreases cs@.len() - i,
    {
        out.push(cs[i]);
        assert(out@ =~= head + s@.subrange(1, i + 1));
        i = i + 1;
    }
    proof {
        assert(s@.subrange(1, s@.len() as int) =~= s@.skip(1));
        assert(out@ =~= upper_chars(s@[0]) + s@.skip(1));
    }
    out
}

/// The hashed bytes of one file entry: its path, digest and size, with
/// NUL separators.
pub open spec fn spec_entry_bytes(f: FileEntry) -> Seq<u8> {
    encode_utf8(f.path@) + seq![0u8] + encode_utf8(f.sha256@) + seq![0u8] + spec_u64_to_le_bytes(
        f.size_bytes,
    )
}

/// The hashed bytes of the entries taken in the order `ord`, from `i` on.
pub open spec fn spec_entries_stream(files: Seq<FileEntry>, ord: Seq<int>, i: int) -> Seq<u8>
    decreases ord.len() - i when 0 <= i <= ord.len()
{
    if i >= ord.len() {
        Seq::empty()
    } else if 0 <= ord[i] < files.len() {
        spec_entry_bytes(files[ord[i]]) + spec_entries_stream(files, ord, i + 1)
    } else {
        spec_entries_stream(files, ord, i + 1)
    }
}

/// The whole hashed input: the commit hash (when known) and every entry,
/// taken in path order.
pub open spec fn spec_hash_input(
    commit: Option<Seq<char>>,
    files: Seq<FileEntry>,
    ord: Seq<int>,
) -> Seq<u8> {
    (match commit {
        None => Seq::<u8>::empty(),
        Some(c) => encode_utf8(c),
    }) + spec_entries_stream(files, ord, 0)
}

/// `ord` enumerates every entry exactly once, in path order.
pub open spec fn spec_path_order(files: Seq<FileEntry>, ord: Seq<int>) -> bool {
    &&& ord.len() == files.len()
    &&& forall|k: int| 0 <= k < ord.len() ==> 0 <= #[trigger] ord[k] < files.len()
    &&& forall|k1: int, k2: int|
        0 <= k1 < k2 < ord.len() ==> #[trigger] ord[k1] != #[trigger] ord[k2]
    &&& forall|k: int|
        0 < k < ord.len() ==> !chars_lt(files[#[trigger] ord[k]].path@, files[ord[k - 1]].path@)
}

/// Order the entries by path: a permutation of the positions, sorted by
/// the path text.
fn sort_indices_by_path(files: &Vec<FileEntry>) -> (r: Vec<usize>)
    ensures
        spec_path_order(files@, r@.map_values(|x: usize| x as int)),
{
    let ghost fv = files@;
    let mut out: Vec<usize> = Vec::new();
    let mut i: usize = 0;
    while i < files.len()
        invariant
            i <= fv.len(),
            files@ == fv,
            out@.len() == i,
            forall|k: int| 0 <= k < out@.len() ==> #[trigger] out@[k] < i,
            forall|k1: int, k2: int|
                0 <= k1 < k2 < out@.len() ==> #[trigger] out@[k1] != #[trigger] out@[k2],
            forall|k: int|
                0 < k < out@.len() ==> !chars_lt(
                    fv[#[trigger] out@[k] as int].path@,
                    fv[out@[k - 1] as int].path@,
                ),
        decreases fv.len() - i,
    {
        let mut p: usize = 0;
        while p < out.len() && !str_lt(&files[i].path, &files[out[p]].path)
            invariant
                p <= out@.len(),
                files@ == fv,
                i < fv.len(),
                forall|k: int| 0 <= k < out@.len() ==> #[trigger] out@[k] < i,
                forall|k: int|
                    0 <= k < p ==> !chars_lt(fv[i as int].path@, fv[#[trigger] out@[k] as int].path@),
            decreases out@.len() - p,
        {
            p = p + 1;
        }
        let ghost before = out@;
        let mut nw: Vec<usize> = Vec::new();
        let mut a: usize = 0;
        while a < p
            invariant
                a <= p <= before.len(),
                out@ == before,
                nw@ == before.subrange(0, a as int),
            decreases p - a,
        {
            nw.push(out[a]);
            assert(nw@ =~= before.subrange(0, a + 1));
            a = a + 1;
        }
        nw.push(i);
        let mut c: usize = p;
        while c < out.len()
            invariant
                p <= c <= before.len(),
                out@ == before,
                nw@ == before.subrange(0, p as int).push(i) + before.subrange(p as int, c as int),
            decreases before.len() - c,
        {
            nw.push(out[c]);
            assert(nw@ =~= before.subrange(0, p as int).push(i) + before.subrange(
                p as int,
                c + 1,
            ));
            c = c + 1;
        }
        proof {
            assert(nw@ =~= before.subrange(0, p as int).push(i) + before.subrange(
                p as int,
                before.len() as int,
            ));
            assert(forall|k: int| 0 <= k < p ==> nw@[k] == (#[trigger] before[k]));
            assert(nw@[p as int] == i);
            assert(forall|k: int|
                p < k < nw@.len() ==> nw@[k] == (#[trigger] before[k - 1]));
            assert forall|k1: int, k2: int|
                0 <= k1 < k2 < nw@.len() implies #[trigger] nw@[k1] != #[trigger] nw@[k2] by {
                if k1 == p {
                    assert(nw@[k2] == before[k2 - 1] && before[k2 - 1] < i);
                } else if k2 == p {
                    assert(nw@[k1] == before[k1] && before[k1] < i);
                }
            }
            assert forall|k: int|
                0 < k < nw@.len() implies !chars_lt(
                fv[#[trigger] nw@[k] as int].path@,
                fv[nw@[k - 1] as int].path@,
            ) by {
                if k < p {
                } else if k == p {
                    assert(!chars_lt(fv[i as int].path@, fv[before[k - 1] as int].path@));
                } else if k == p + 1 {
                    assert(p < before.len());
                    assert(chars_lt(fv[i as int].path@, fv[before[p as int] as int].path@));
                    lemma_chars_lt_asym(
                        fv[i as int].path@,
                        fv[before[p as int] as int].path@,
                    );
                } else {
                    assert(!chars_lt(
                        fv[before[k - 1] as int].path@,
                        fv[before[k - 2] as int].path@,
                    ));
                }
            }
        }
        out = nw;
        i = i + 1;
    }
    proof {
        let ov = out@.map_values(|x: usize| x as int);
        assert(ov.len() == fv.len());
        assert forall|k: int| 0 <= k < ov.len() implies 0 <= #[trigger] ov[k] < fv.len() by {
            assert(ov[k] == out@[k] as int);
        }
        assert forall|k1: int, k2: int|
            0 <= k1 < k2 < ov.len() implies #[trigger] ov[k1] != #[trigger] ov[k2] by {
            assert(ov[k1] == out@[k1] as int && ov[k2] == out@[k2] as int);
        }
        assert forall|k: int|
            0 < k < ov.len() implies !chars_lt(
            fv[#[trigger] ov[k]].path@,
            fv[ov[k - 1]].path@,
        ) by {
            assert(ov[k] == out@[k] as int && ov[k - 1] == out@[k - 1] as int);
        }
    }
    out
}

/// The stable digest of a review's inputs: the commit hash and every
/// file's path, digest and size, hashed in path order.
#[verifier::rlimit(80)]
#[verifier::spinoff_prover]
pub fn compute_inputs_hash(commit: Option<&str>, files: &Vec<FileEntry>) -> (r: String)
    ensures
        exists|ord: Seq<int>|
            #[trigger] spec_path_order(files@, ord) && r@ == hex_chars(
                sha256_of(
                    spec_hash_input(
                        match commit {
                            None => None,
                            Some(c) => Some(c@),
                        },
                        files@,
                        ord,
                    ),
                ),
            ),
{
    let ord = sort_indices_by_path(files);
    let ghost ov = ord@.map_values(|x: usize| x as int);
    let mut stream: Vec<u8> = Vec::new();
    match commit {
        None => {},
        Some(c) => {
            let mut cb = str_bytes(c);
            stream.append(&mut cb);
        },
    }
    let ghost head = stream@;
    let ghost mut acc: Seq<u8> = Seq::empty();
    proof {
        assert(stream@ =~= head + acc);
    }
    let mut k: usize = 0;
    while k < ord.len()
        invariant
            k <= ord@.len(),
            ov == ord@.map_values(|x: usize| x as int),
            spec_path_order(files@, ov),
            stream@ == head + acc,
            spec_entries_stream(files@, ov, 0) == acc + spec_entries_stream(
                files@,
                ov,
                k as int,
            ),
        decreases ord@.len() - k,
    {
        proof {
            assert(ov[k as int] == ord@[k as int] as int);
            assert(0 <= ov[k as int] < files@.len());
        }
        let idx = ord[k];
        let f = &files[idx];
        let ghost piece_start = stream@;
        let mut pb = str_bytes(f.path.as_str());
        stream.append(&mut pb);
        stream.push(0);
        let mut hb = str_bytes(f.sha256.as_str());
        stream.append(&mut hb);
        stream.push(0);
        let mut sb = u64_to_le_bytes(f.size_bytes);
        stream.append(&mut sb);
        proof {
            let piece = spec_entry_bytes(files@[ov[k as int]]);
            assert(stream@ =~= piece_start + piece);
            assert(spec_entries_stream(files@, ov, k as int) == piece + spec_entries_stream(
                files@,
                ov,
                k as int + 1,
            ));
            acc = acc + piece;
            assert(stream@ =~= head + acc);
            assert(spec_entries_stream(files@, ov, 0) =~= acc + spec_entries_stream(
                files@,
                ov,
                k as int + 1,
            ));
        }
        k = k + 1;
    }
    proof {
        assert(spec_entries_stream(files@, ov, k as int) =~= Seq::<u8>::empty());
        assert(acc + Seq::<u8>::empty() =~= acc);
        assert(stream@ =~= spec_hash_input(
            match commit {
                None => None,
                Some(c) => Some(c@),
            },
            files@,
            ov,
        ));
    }
    sha256_hex(&stream)
}

} // verus!
