//! The chunker: split text into line-window chunks or blank-line blocks,
//! coalesce them toward a target line budget, extend starts backward for
//! overlap, and render a short preview for each chunk.

use vstd::prelude::*;
use vstd::utf8::encode_utf8;
use vstd::utf8::decode_utf8;
use vstd::utf8::valid_utf8;
use vstd::utf8::is_continuation_byte;
use crate::bytesutil::str_bytes;
use crate::bytesutil::subvec;
use crate::bytesutil::check_utf8;
use crate::bytesutil::bytes_to_string;
use crate::scan::count_eq;
use crate::scan::count_byte;

verus! {

// ---------------------------------------------------------------------------
// Lines
// ---------------------------------------------------------------------------

/// Starts of the lines that begin after each newline at or past `i`.
pub open spec fn newline_starts_from(b: Seq<u8>, i: int) -> Seq<int>
    decreases b.len() - i when 0 <= i <= b.len()
{
    if i >= b.len() {
        Seq::empty()
    } else if b[i] == 0x0a {
        seq![i + 1] + newline_starts_from(b, i + 1)
    } else {
        newline_starts_from(b, i + 1)
    }
}

/// Byte offsets at which lines start: offset 0, then one entry after each
/// newline.
pub open spec fn line_starts(b: Seq<u8>) -> Seq<int> {
    seq![0int] + newline_starts_from(b, 0)
}

proof fn lemma_newline_starts_bounds(b: Seq<u8>, i: int)
    requires
        0 <= i <= b.len(),
    ensures
        forall|k: int|
            0 <= k < newline_starts_from(b, i).len() ==> i < #[trigger] newline_starts_from(
                b,
                i,
            )[k] <= b.len(),
    decreases b.len() - i,
{
    if i < b.len() {
        lemma_newline_starts_bounds(b, i + 1);
        if b[i] == 0x0a {
            assert forall|k: int|
                0 <= k < newline_starts_from(b, i).len() implies i < #[trigger] newline_starts_from(
                b,
                i,
            )[k] <= b.len() by {
                if k > 0 {
                    assert(newline_starts_from(b, i)[k] == newline_starts_from(b, i + 1)[k - 1]);
                }
            }
        } else {
            assert(newline_starts_from(b, i) == newline_starts_from(b, i + 1));
        }
    }
}

/// Collect the line start offsets of `b`.
fn line_starts_exec(b: &[u8]) -> (r: Vec<usize>)
    ensures
        r@.map_values(|x: usize| x as int) == line_starts(b@),
        r@.len() >= 1,
        forall|k: int| 0 <= k < r@.len() ==> #[trigger] r@[k] <= b@.len(),
{
    let ghost s = b@;
    let mut r: Vec<usize> = Vec::new();
    r.push(0);
    assert(r@.map_values(|x: usize| x as int) =~= seq![0int]);
    let mut i: usize = 0;
    while i < b.len()
        invariant
            i <= b@.len(),
            b@ == s,
            r@.len() >= 1,
            forall|k: int| 0 <= k < r@.len() ==> #[trigger] r@[k] <= i,
            line_starts(s) == r@.map_values(|x: usize| x as int) + newline_starts_from(
                s,
                i as int,
            ),
        decreases b@.len() - i,
    {
        let ghost before = r@;
        if b[i] == 0x0a {
            r.push(i + 1);
            proof {
                assert(newline_starts_from(s, i as int) == seq![i + 1] + newline_starts_from(
                    s,
                    i as int + 1,
                ));
                assert(r@.map_values(|x: usize| x as int) =~= before.map_values(
                    |x: usize| x as int,
                ).push(i + 1));
                assert(line_starts(s) =~= r@.map_values(|x: usize| x as int)
                    + newline_starts_from(s, i as int + 1));
            }
        } else {
            proof {
                assert(newline_starts_from(s, i as int) == newline_starts_from(s, i as int + 1));
            }
        }
        i = i + 1;
    }
    proof {
        assert(newline_starts_from(s, i as int) =~= Seq::<int>::empty());
        assert(line_starts(s) =~= r@.map_values(|x: usize| x as int));
    }
    r
}

// ---------------------------------------------------------------------------
// Line counting
// ---------------------------------------------------------------------------

/// Number of lines spanned by the byte range `[s, e)`: newlines within it,
/// plus one.
pub open spec fn spec_line_span(b: Seq<u8>, s: int, e: int) -> int {
    count_eq(b.subrange(s, e), 0x0a) as int + 1
}

/// The 1-based line number at byte offset `off`.
pub open spec fn spec_offset_to_line(b: Seq<u8>, off: int) -> int {
    count_eq(b.subrange(0, off), 0x0a) as int + 1
}

/// Number of lines spanned by the byte range `[s, e)` of the text.
pub fn line_span(text: &str, s: usize, e: usize) -> (r: usize)
    requires
        s <= e <= encode_utf8(text@).len(),
        e <= usize::MAX - 1,
    ensures
        r == spec_line_span(encode_utf8(text@), s as int, e as int),
{
    let b = str_bytes(text);
    let part = subvec(&b, s, e);
    let c = count_byte(&part, 0x0a);
    proof {
        crate::scan::lemma_count_eq_le(part@, 0x0a);
    }
    c + 1
}

/// The 1-based line number at byte offset `off` of the text.
pub fn offset_to_line(text: &str, off: usize) -> (r: usize)
    requires
        off <= encode_utf8(text@).len(),
        off <= usize::MAX - 1,
    ensures
        r == spec_offset_to_line(encode_utf8(text@), off as int),
{
    let b = str_bytes(text);
    let part = subvec(&b, 0, off);
    let c = count_byte(&part, 0x0a);
    proof {
        crate::scan::lemma_count_eq_le(part@, 0x0a);
    }
    c + 1
}

// ---------------------------------------------------------------------------
// Previews
// ---------------------------------------------------------------------------

/// The first up-to-eight lines of `b` starting at `i`, joined by `\n`,
/// with `nl` separators already emitted. Line endings `\r\n` and `\n`
/// both become `\n`; a final line ending is dropped.
pub open spec fn preview_scan(b: Seq<u8>, i: int, nl: int) -> Seq<u8>
    decreases b.len() - i when 0 <= i <= b.len()
{
    if i >= b.len() {
        Seq::empty()
    } else if b[i] == 0x0a {
        if i + 1 == b.len() || nl >= 7 {
            Seq::empty()
        } else {
            seq![0x0au8] + preview_scan(b, i + 1, nl + 1)
        }
    } else if b[i] == 0x0d && i + 1 < b.len() && b[i + 1] == 0x0a {
        if i + 2 == b.len() || nl >= 7 {
            Seq::empty()
        } else {
            seq![0x0au8] + preview_scan(b, i + 2, nl + 1)
        }
    } else {
        seq![b[i]] + preview_scan(b, i + 1, nl)
    }
}

/// The largest index at or below `i` that does not point into the middle
/// of a UTF-8 encoded character.
pub open spec fn snap_back_cont(b: Seq<u8>, i: int) -> int
    decreases i when 0 <= i <= b.len()
{
    if i <= 0 {
        0
    } else if i < b.len() && is_continuation_byte(b[i]) {
        snap_back_cont(b, i - 1)
    } else {
        i
    }
}

/// The preview bytes of a chunk: its first up-to-eight lines, truncated to
/// at most 800 bytes without splitting a character.
pub open spec fn spec_preview_bytes(b: Seq<u8>) -> Seq<u8> {
    let pv = preview_scan(b, 0, 0);
    if pv.len() <= 800 {
        pv
    } else {
        pv.subrange(0, snap_back_cont(pv, 800))
    }
}

/// The preview text of a chunk, empty when its bytes do not decode.
pub open spec fn spec_preview_str(b: Seq<u8>) -> Seq<char> {
    if valid_utf8(spec_preview_bytes(b)) {
        decode_utf8(spec_preview_bytes(b))
    } else {
        Seq::empty()
    }
}

/// Render the preview of a chunk: the first up-to-eight lines, truncated
/// to at most 800 bytes at a character boundary.
pub fn preview(chunk: &[u8]) -> (r: String)
    ensures
        r@ == spec_preview_str(chunk@),
{
    let ghost s = chunk@;
    let n = chunk.len();
    let mut pv: Vec<u8> = Vec::new();
    let mut nl: usize = 0;
    let mut i: usize = 0;
    loop
        invariant
            i <= n,
            n == chunk@.len(),
            chunk@ == s,
            nl <= 7,
            preview_scan(s, 0, 0) == pv@ + preview_scan(s, i as int, nl as int),
        ensures
            pv@ == preview_scan(s, 0, 0),
        decreases n - i,
    {
        if i >= n {
            proof {
                assert(preview_scan(s, i as int, nl as int) =~= Seq::<u8>::empty());
                assert(pv@ + Seq::<u8>::empty() =~= pv@);
            }
            break;
        }
        let c = chunk[i];
        if c == 0x0a {
            if i + 1 == n || nl >= 7 {
                proof {
                    assert(preview_scan(s, i as int, nl as int) =~= Seq::<u8>::empty());
                    assert(pv@ + Seq::<u8>::empty() =~= pv@);
                }
                break;
            }
            let ghost before = pv@;
            pv.push(0x0a);
            proof {
                assert(preview_scan(s, i as int, nl as int) == seq![0x0au8] + preview_scan(
                    s,
                    i as int + 1,
                    nl as int + 1,
                ));
                assert(pv@ + preview_scan(s, i as int + 1, nl as int + 1) =~= before
                    + preview_scan(s, i as int, nl as int));
            }
            nl = nl + 1;
            i = i + 1;
        } else if c == 0x0d && i + 1 < n && chunk[i + 1] == 0x0a {
            if i + 2 == n || nl >= 7 {
                proof {
                    assert(preview_scan(s, i as int, nl as int) =~= Seq::<u8>::empty());
                    assert(pv@ + Seq::<u8>::empty() =~= pv@);
                }
                break;
            }
            let ghost before = pv@;
            pv.push(0x0a);
            proof {
                assert(preview_scan(s, i as int, nl as int) == seq![0x0au8] + preview_scan(
                    s,
                    i as int + 2,
                    nl as int + 1,
                ));
                assert(pv@ + preview_scan(s, i as int + 2, nl as int + 1) =~= before
                    + preview_scan(s, i as int, nl as int));
            }
            nl = nl + 1;
            i = i + 2;
        } else {
            let ghost before = pv@;
            pv.push(c);
            proof {
                assert(preview_scan(s, i as int, nl as int) == seq![c] + preview_scan(
                    s,
                    i as int + 1,
                    nl as int,
                ));
                assert(pv@ + preview_scan(s, i as int + 1, nl as int) =~= before + preview_scan(
                    s,
                    i as int,
                    nl as int,
                ));
            }
            i = i + 1;
        }
    }
    if pv.len() > 800 {
        let ghost full = pv@;
        let mut j: usize = 800;
        while j > 0 && 0x80 <= pv[j] && pv[j] <= 0xbf
            invariant
                j <= 800 < pv@.len(),
                pv@ == full,
                snap_back_cont(full, 800) == snap_back_cont(full, j as int),
            decreases j,
        {
            proof {
                assert(is_continuation_byte(full[j as int]));
                assert(snap_back_cont(full, j as int) == snap_back_cont(full, j as int - 1));
            }
            j = j - 1;
        }
        proof {
            assert(snap_back_cont(full, j as int) == j);
        }
        pv.truncate(j);
        proof {
            assert(pv@ =~= full.subrange(0, j as int));
        }
    }
    assert(pv@ == spec_preview_bytes(s));
    if check_utf8(&pv) {
        bytes_to_string(pv)
    } else {
        String::new()
    }
}

// ---------------------------------------------------------------------------
// Sliding line windows
// ---------------------------------------------------------------------------

/// The byte ranges of the sliding line windows starting at 1-based line
/// `cur`: each window covers `target` lines, and the next begins `overlap`
/// lines before the previous one ended.
pub open spec fn chunk_lines_from(
    b: Seq<u8>,
    starts: Seq<int>,
    cur: int,
    target: int,
    overlap: int,
) -> Seq<(int, int)>
    decreases starts.len() - cur when 1 <= cur <= starts.len() && target >= 1 && overlap >= 0
{
    let lc = starts.len() as int;
    let end_line = if cur + target - 1 < lc {
        cur + target - 1
    } else {
        lc
    };
    let s = starts[cur - 1];
    let e = if end_line < lc {
        starts[end_line]
    } else {
        b.len() as int
    };
    let this = if e > s {
        seq![(s, e)]
    } else {
        Seq::empty()
    };
    if end_line == lc {
        this
    } else {
        let next = if end_line > overlap {
            end_line - overlap + 1
        } else {
            1
        };
        if next <= cur {
            this
        } else {
            this + chunk_lines_from(b, starts, next, target, overlap)
        }
    }
}

/// The chunks of the deterministic sliding-window mode.
pub open spec fn spec_chunk_lines(b: Seq<u8>, target: int, overlap: int) -> Seq<(int, int)> {
    chunk_lines_from(b, line_starts(b), 1, target, overlap)
}

/// Split the text into sliding line windows of `target` lines advancing by
/// `target - overlap` lines, with a byte-range and preview for each.
pub fn chunk_lines(text: &str, target: usize, overlap: usize) -> (r: Vec<(usize, usize, String)>)
    requires
        target >= 1,
    ensures
        ({
            let b = encode_utf8(text@);
            let cs = spec_chunk_lines(b, target as int, overlap as int);
            &&& r@.len() == cs.len()
            &&& forall|k: int| 0 <= k < cs.len() ==> #[trigger] r@[k].0 == cs[k].0
            &&& forall|k: int| 0 <= k < cs.len() ==> #[trigger] r@[k].1 == cs[k].1
            &&& forall|k: int|
                0 <= k < cs.len() ==> #[trigger] r@[k].2@ == spec_preview_str(
                    b.subrange(cs[k].0, cs[k].1),
                )
        }),
{
    let b = str_bytes(text);
    let ghost bs = b@;
    let starts = line_starts_exec(&b);
    let ghost sts = line_starts(bs);
    proof {
        assert(sts.len() == starts@.len());
        assert(forall|k: int|
            0 <= k < sts.len() ==> #[trigger] sts[k] == starts@.map_values(|x: usize| x as int)[k]);
    }
    let lc = starts.len();
    let mut r: Vec<(usize, usize, String)> = Vec::new();
    let ghost full = spec_chunk_lines(bs, target as int, overlap as int);
    let mut cur: usize = 1;
    loop
        invariant_except_break
            ({
                let done = r@.map_values(|t: (usize, usize, String)| (t.0 as int, t.1 as int));
                full == done + chunk_lines_from(bs, sts, cur as int, target as int, overlap as int)
            }),
        invariant
            1 <= cur <= lc,
            lc == starts@.len(),
            lc == sts.len(),
            b@ == bs,
            target >= 1,
            starts@.map_values(|x: usize| x as int) == sts,
            forall|k: int| 0 <= k < starts@.len() ==> #[trigger] starts@[k] <= bs.len(),
            full == spec_chunk_lines(bs, target as int, overlap as int),
            forall|k: int| 0 <= k < r@.len() ==> #[trigger] r@[k].0 == full[k].0,
            forall|k: int| 0 <= k < r@.len() ==> #[trigger] r@[k].1 == full[k].1,
            forall|k: int|
                0 <= k < r@.len() ==> #[trigger] r@[k].2@ == spec_preview_str(
                    bs.subrange(full[k].0, full[k].1),
                ),
        ensures
            ({
                let done = r@.map_values(|t: (usize, usize, String)| (t.0 as int, t.1 as int));
                full == done
            }),
        decreases lc - cur,
    {
        let ghost rem = chunk_lines_from(bs, sts, cur as int, target as int, overlap as int);
        let end_line: usize = if lc - cur >= target {
            cur + target - 1
        } else {
            lc
        };
        let s = starts[cur - 1];
        let e = if end_line < lc {
            starts[end_line]
        } else {
            b.len()
        };
        let ghost before = r@;
        if e > s {
            let part = subvec(&b, s, e);
            let pv = preview(&part);
            r.push((s, e, pv));
        }
        proof {
            let done_before = before.map_values(
                |t: (usize, usize, String)| (t.0 as int, t.1 as int),
            );
            let done_now = r@.map_values(|t: (usize, usize, String)| (t.0 as int, t.1 as int));
            if e > s {
                assert(done_now =~= done_before.push((e as int, s as int)) || done_now
                    =~= done_before.push((s as int, e as int)));
                assert(done_now =~= done_before.push((s as int, e as int)));
            } else {
                assert(done_now =~= done_before);
            }
        }
        if end_line == lc {
            proof {
                let done_now = r@.map_values(|t: (usize, usize, String)| (t.0 as int, t.1 as int));
                assert(rem == if e > s {
                    seq![(s as int, e as int)]
                } else {
                    Seq::<(int, int)>::empty()
                });
                assert(full =~= done_now);
            }
            break;
        }
        let next: usize = if end_line > overlap {
            end_line - overlap + 1
        } else {
            1
        };
        if next <= cur {
            proof {
                let done_now = r@.map_values(|t: (usize, usize, String)| (t.0 as int, t.1 as int));
                assert(rem == if e > s {
                    seq![(s as int, e as int)]
                } else {
                    Seq::<(int, int)>::empty()
                });
                assert(full =~= done_now);
            }
            break;
        }
        proof {
            let this = if e > s {
                seq![(s as int, e as int)]
            } else {
                Seq::<(int, int)>::empty()
            };
            assert(rem == this + chunk_lines_from(
                bs,
                sts,
                next as int,
                target as int,
                overlap as int,
            ));
            let done_now = r@.map_values(|t: (usize, usize, String)| (t.0 as int, t.1 as int));
            assert(full =~= done_now + chunk_lines_from(
                bs,
                sts,
                next as int,
                target as int,
                overlap as int,
            ));
        }
        cur = next;
    }
    proof {
        let done = r@.map_values(|t: (usize, usize, String)| (t.0 as int, t.1 as int));
        assert(forall|k: int| 0 <= k < r@.len() ==> #[trigger] full[k] == done[k]);
    }
    r
}

// ---------------------------------------------------------------------------
// Blank-line blocks
// ---------------------------------------------------------------------------

/// The blocks of `b` split at blank lines, scanning from `i` with the
/// current block beginning at `start`.
pub open spec fn blocks_from(b: Seq<u8>, start: int, i: int) -> Seq<(int, int)>
    decreases b.len() - i when 0 <= start <= i && i <= b.len()
{
    if i >= b.len() {
        seq![(start, b.len() as int)]
    } else if b[i] == 0x0a && i + 1 < b.len() && b[i + 1] == 0x0a {
        seq![(start, i + 1)] + blocks_from(b, i + 2, i + 2)
    } else {
        blocks_from(b, start, i + 1)
    }
}

/// The blank-line blocks of `b`.
pub open spec fn spec_blocks(b: Seq<u8>) -> Seq<(int, int)> {
    blocks_from(b, 0, 0)
}

proof fn lemma_blocks_bounds(b: Seq<u8>, start: int, i: int)
    requires
        0 <= start <= i <= b.len(),
    ensures
        blocks_from(b, start, i).len() >= 1,
        forall|k: int|
            0 <= k < blocks_from(b, start, i).len() ==> {
                let r = #[trigger] blocks_from(b, start, i)[k];
                start <= r.0 <= r.1 <= b.len()
            },
        forall|k: int|
            0 < k < blocks_from(b, start, i).len() ==> #[trigger] blocks_from(b, start, i)[
                k - 1
            ].0 <= blocks_from(b, start, i)[k].0,
    decreases b.len() - i,
{
    if i >= b.len() {
    } else if b[i] == 0x0a && i + 1 < b.len() && b[i + 1] == 0x0a {
        lemma_blocks_bounds(b, i + 2, i + 2);
        let whole = blocks_from(b, start, i);
        let rest = blocks_from(b, i + 2, i + 2);
        assert forall|k: int| 0 <= k < whole.len() implies {
            let r = #[trigger] whole[k];
            start <= r.0 <= r.1 <= b.len()
        } by {
            if k > 0 {
                assert(whole[k] == rest[k - 1]);
            }
        }
        assert forall|k: int| 0 < k < whole.len() implies #[trigger] whole[k - 1].0
            <= whole[k].0 by {
            if k > 1 {
                assert(whole[k] == rest[k - 1]);
                assert(whole[k - 1] == rest[k - 2]);
            } else {
                assert(whole[k] == rest[0]);
            }
        }
    } else {
        lemma_blocks_bounds(b, start, i + 1);
    }
}

/// Collect the blank-line blocks of `b`.
fn blocks_exec(b: &[u8]) -> (r: Vec<(usize, usize)>)
    ensures
        r@.map_values(|t: (usize, usize)| (t.0 as int, t.1 as int)) == spec_blocks(b@),
        r@.len() >= 1,
        forall|k: int|
            0 <= k < r@.len() ==> (#[trigger] r@[k]).0 <= r@[k].1 <= b@.len(),
        forall|k: int| 0 < k < r@.len() ==> (#[trigger] r@[k - 1]).0 <= r@[k].0,
{
    let ghost s = b@;
    let mut r: Vec<(usize, usize)> = Vec::new();
    let mut start: usize = 0;
    let mut i: usize = 0;
    loop
        invariant_except_break
            spec_blocks(s) == r@.map_values(|t: (usize, usize)| (t.0 as int, t.1 as int))
                + blocks_from(s, start as int, i as int),
        invariant
            0 <= start <= i <= s.len(),
            b@ == s,
            forall|k: int|
                0 <= k < r@.len() ==> (#[trigger] r@[k]).0 <= r@[k].1 <= s.len(),
            forall|k: int| 0 < k < r@.len() ==> (#[trigger] r@[k - 1]).0 <= r@[k].0,
            forall|k: int| 0 <= k < r@.len() ==> (#[trigger] r@[k]).0 <= start,
        ensures
            spec_blocks(s) == r@.map_values(|t: (usize, usize)| (t.0 as int, t.1 as int)) + seq![
                (start as int, s.len() as int),
            ],
            start <= s.len(),
            forall|k: int|
                0 <= k < r@.len() ==> (#[trigger] r@[k]).0 <= r@[k].1 <= s.len(),
            forall|k: int| 0 < k < r@.len() ==> (#[trigger] r@[k - 1]).0 <= r@[k].0,
            forall|k: int| 0 <= k < r@.len() ==> (#[trigger] r@[k]).0 <= start,
        decreases s.len() - i,
    {
        if i >= b.len() {
            proof {
                assert(blocks_from(s, start as int, i as int) =~= seq![
                    (start as int, s.len() as int),
                ]);
            }
            break;
        }
        if b[i] == 0x0a && i + 1 < b.len() && b[i + 1] == 0x0a {
            let ghost before = r@;
            r.push((start, i + 1));
            proof {
                assert(blocks_from(s, start as int, i as int) == seq![(start as int, i + 1)]
                    + blocks_from(s, i + 2, i + 2));
                assert(r@.map_values(|t: (usize, usize)| (t.0 as int, t.1 as int)) =~= before.map_values(
                    |t: (usize, usize)| (t.0 as int, t.1 as int),
                ).push((start as int, i + 1)));
                assert(spec_blocks(s) =~= r@.map_values(
                    |t: (usize, usize)| (t.0 as int, t.1 as int),
                ) + blocks_from(s, i + 2, i + 2));
            }
            start = i + 2;
            i = i + 2;
        } else {
            proof {
                assert(blocks_from(s, start as int, i as int) == blocks_from(
                    s,
                    start as int,
                    i as int + 1,
                ));
            }
            i = i + 1;
        }
    }
    let ghost before = r@;
    r.push((start, b.len()));
    proof {
        assert(r@.map_values(|t: (usize, usize)| (t.0 as int, t.1 as int)) =~= before.map_values(
            |t: (usize, usize)| (t.0 as int, t.1 as int),
        ).push((start as int, s.len() as int)));
        assert(spec_blocks(s) =~= r@.map_values(|t: (usize, usize)| (t.0 as int, t.1 as int)));
    }
    r
}

// ---------------------------------------------------------------------------
// Coalescing ranges toward a line budget
// ---------------------------------------------------------------------------

/// Coalesce the ranges `rs[k..]` into the running range `cur`: while the
/// span from the running start to the next range's end stays under
/// `target` lines, extend; otherwise emit and start anew.
pub open spec fn merge_ranges_from(
    b: Seq<u8>,
    rs: Seq<(int, int)>,
    k: int,
    cur: (int, int),
    target: int,
) -> Seq<(int, int)>
    decreases rs.len() - k when 0 <= k <= rs.len()
{
    if k >= rs.len() {
        seq![cur]
    } else {
        let r = rs[k];
        if spec_line_span(b, cur.0, r.1) < target {
            merge_ranges_from(b, rs, k + 1, (cur.0, r.1), target)
        } else {
            seq![cur] + merge_ranges_from(b, rs, k + 1, r, target)
        }
    }
}

/// The coalesced form of a non-empty sorted range list.
pub open spec fn spec_merge_ranges(b: Seq<u8>, rs: Seq<(int, int)>, target: int) -> Seq<
    (int, int),
>
    recommends
        rs.len() >= 1,
{
    merge_ranges_from(b, rs, 1, rs[0], target)
}

proof fn lemma_merge_bounds(b: Seq<u8>, rs: Seq<(int, int)>, k: int, cur: (int, int), target: int)
    requires
        0 <= k <= rs.len(),
        0 <= cur.0 <= cur.1 <= b.len(),
        forall|j: int| 0 <= j < rs.len() ==> (#[trigger] rs[j]).0 <= rs[j].1 <= b.len(),
        forall|j: int| 0 < j < rs.len() ==> (#[trigger] rs[j - 1]).0 <= rs[j].0,
        forall|j: int| k <= j < rs.len() ==> cur.0 <= (#[trigger] rs[j]).0,
    ensures
        merge_ranges_from(b, rs, k, cur, target).len() >= 1,
        forall|j: int|
            0 <= j < merge_ranges_from(b, rs, k, cur, target).len() ==> {
                let r = #[trigger] merge_ranges_from(b, rs, k, cur, target)[j];
                0 <= r.0 <= r.1 <= b.len()
            },
    decreases rs.len() - k,
{
    if k < rs.len() {
        let r = rs[k];
        assert(forall|j: int| k + 1 <= j < rs.len() ==> rs[k].0 <= (#[trigger] rs[j]).0) by {
            assert forall|j: int| k + 1 <= j < rs.len() implies rs[k].0 <= (#[trigger] rs[j]).0 by {
                lemma_sorted_starts(rs, k, j);
            }
        }
        if spec_line_span(b, cur.0, r.1) < target {
            lemma_merge_bounds(b, rs, k + 1, (cur.0, r.1), target);
        } else {
            lemma_merge_bounds(b, rs, k + 1, r, target);
        }
    }
}

proof fn lemma_sorted_starts(rs: Seq<(int, int)>, i: int, j: int)
    requires
        forall|t: int| 0 < t < rs.len() ==> (#[trigger] rs[t - 1]).0 <= rs[t].0,
        0 <= i <= j < rs.len(),
    ensures
        rs[i].0 <= rs[j].0,
    decreases j - i,
{
    if i < j {
        lemma_sorted_starts(rs, i, j - 1);
        assert(rs[j - 1].0 <= rs[j].0);
    }
}

/// Coalesce sorted ranges toward the target line budget.
pub fn merge_ranges(b: &[u8], rs: &Vec<(usize, usize)>, target: usize) -> (r: Vec<(usize, usize)>)
    requires
        rs@.len() >= 1,
        forall|k: int|
            0 <= k < rs@.len() ==> (#[trigger] rs@[k]).0 <= rs@[k].1 <= b@.len(),
        forall|k: int| 0 < k < rs@.len() ==> (#[trigger] rs@[k - 1]).0 <= rs@[k].0,
    ensures
        r@.map_values(|t: (usize, usize)| (t.0 as int, t.1 as int)) == spec_merge_ranges(
            b@,
            rs@.map_values(|t: (usize, usize)| (t.0 as int, t.1 as int)),
            target as int,
        ),
        r@.len() >= 1,
        forall|k: int|
            0 <= k < r@.len() ==> (#[trigger] r@[k]).0 <= r@[k].1 <= b@.len(),
{
    let ghost s = b@;
    let ghost mrs = rs@.map_values(|t: (usize, usize)| (t.0 as int, t.1 as int));
    let ghost full = spec_merge_ranges(s, mrs, target as int);
    let mut out: Vec<(usize, usize)> = Vec::new();
    let mut cur: (usize, usize) = (rs[0].0, rs[0].1);
    proof {
        assert forall|j: int| 1 <= j < rs@.len() implies cur.0 <= (#[trigger] rs@[j]).0 by {
            lemma_sorted_starts(mrs, 0, j);
        }
    }
    let mut k: usize = 1;
    while k < rs.len()
        invariant
            1 <= k <= rs@.len(),
            b@ == s,
            mrs == rs@.map_values(|t: (usize, usize)| (t.0 as int, t.1 as int)),
            full == spec_merge_ranges(s, mrs, target as int),
            forall|j: int|
                0 <= j < rs@.len() ==> (#[trigger] rs@[j]).0 <= rs@[j].1 <= s.len(),
            forall|j: int| 0 < j < rs@.len() ==> (#[trigger] rs@[j - 1]).0 <= rs@[j].0,
            cur.0 <= cur.1 <= s.len(),
            forall|j: int| k <= j < rs@.len() ==> cur.0 <= (#[trigger] rs@[j]).0,
            full == out@.map_values(|t: (usize, usize)| (t.0 as int, t.1 as int))
                + merge_ranges_from(s, mrs, k as int, (cur.0 as int, cur.1 as int), target as int),
            forall|j: int|
                0 <= j < out@.len() ==> (#[trigger] out@[j]).0 <= out@[j].1 <= s.len(),
        decreases rs@.len() - k,
    {
        let r = (rs[k].0, rs[k].1);
        let ghost before = out@;
        let part = subvec(b, cur.0, r.1);
        let c = count_byte(&part, 0x0a);
        let span_small = (c as u128) + 1 < (target as u128);
        proof {
            assert(spec_line_span(s, cur.0 as int, r.1 as int) == c + 1);
        }
        if span_small {
            proof {
                assert(merge_ranges_from(s, mrs, k as int, (cur.0 as int, cur.1 as int), target as int)
                    == merge_ranges_from(s, mrs, k as int + 1, (cur.0 as int, r.1 as int), target as int));
            }
            cur = (cur.0, r.1);
        } else {
            out.push((cur.0, cur.1));
            proof {
                assert(merge_ranges_from(s, mrs, k as int, (cur.0 as int, cur.1 as int), target as int)
                    == seq![(cur.0 as int, cur.1 as int)] + merge_ranges_from(s, mrs, k as int + 1, (r.0 as int, r.1 as int), target as int));
                assert(out@.map_values(|t: (usize, usize)| (t.0 as int, t.1 as int)) =~= before.map_values(
                    |t: (usize, usize)| (t.0 as int, t.1 as int),
                ).push((cur.0 as int, cur.1 as int)));
                assert(full =~= out@.map_values(|t: (usize, usize)| (t.0 as int, t.1 as int))
                    + merge_ranges_from(s, mrs, k as int + 1, (r.0 as int, r.1 as int), target as int));
            }
            proof {
                assert forall|j: int| k as int + 1 <= j < rs@.len() implies r.0 <= (
                #[trigger] rs@[j]).0 by {
                    lemma_sorted_starts(mrs, k as int, j);
                }
            }
            cur = r;
        }
        k = k + 1;
    }
    let ghost before = out@;
    out.push((cur.0, cur.1));
    proof {
        assert(merge_ranges_from(s, mrs, k as int, (cur.0 as int, cur.1 as int), target as int)
            =~= seq![(cur.0 as int, cur.1 as int)]);
        assert(out@.map_values(|t: (usize, usize)| (t.0 as int, t.1 as int)) =~= before.map_values(
            |t: (usize, usize)| (t.0 as int, t.1 as int),
        ).push((cur.0 as int, cur.1 as int)));
        assert(full =~= out@.map_values(|t: (usize, usize)| (t.0 as int, t.1 as int)));
    }
    out
}

// ---------------------------------------------------------------------------
// Overlap
// ---------------------------------------------------------------------------

/// Walk `off` backward past `n` newlines, with `k` newlines already seen.
pub open spec fn back_n_from(b: Seq<u8>, off: int, k: int, n: int) -> int
    decreases off when 0 <= off <= b.len()
{
    if off <= 0 || k >= n {
        off
    } else if b[off - 1] == 0x0a {
        back_n_from(b, off - 1, k + 1, n)
    } else {
        back_n_from(b, off - 1, k, n)
    }
}

/// The start extended backward over `n` newline boundaries.
pub open spec fn spec_back_n_lines(b: Seq<u8>, off: int, n: int) -> int {
    back_n_from(b, off, 0, n)
}

proof fn lemma_back_n_le(b: Seq<u8>, off: int, k: int, n: int)
    requires
        0 <= off <= b.len(),
    ensures
        0 <= back_n_from(b, off, k, n) <= off,
    decreases off,
{
    if off > 0 && k < n {
        if b[off - 1] == 0x0a {
            lemma_back_n_le(b, off - 1, k + 1, n);
        } else {
            lemma_back_n_le(b, off - 1, k, n);
        }
    }
}

/// Extend a chunk start backward by up to `n` lines.
pub fn back_n_lines(text: &str, off: usize, n: usize) -> (r: usize)
    requires
        off <= encode_utf8(text@).len(),
    ensures
        r == spec_back_n_lines(encode_utf8(text@), off as int, n as int),
        r <= off,
{
    let b = str_bytes(text);
    back_n_lines_bytes(&b, off, n)
}

pub fn back_n_lines_bytes(b: &[u8], off: usize, n: usize) -> (r: usize)
    requires
        off <= b@.len(),
    ensures
        r == spec_back_n_lines(b@, off as int, n as int),
        r <= off,
{
    let ghost s = b@;
    let mut o: usize = off;
    let mut k: usize = 0;
    while o > 0 && k < n
        invariant
            o <= off <= s.len(),
            b@ == s,
            spec_back_n_lines(s, off as int, n as int) == back_n_from(s, o as int, k as int, n as int),
        decreases o,
    {
        proof {
            if s[o - 1] == 0x0a {
                assert(back_n_from(s, o as int, k as int, n as int) == back_n_from(
                    s,
                    o as int - 1,
                    k as int + 1,
                    n as int,
                ));
            } else {
                assert(back_n_from(s, o as int, k as int, n as int) == back_n_from(
                    s,
                    o as int - 1,
                    k as int,
                    n as int,
                ));
            }
        }
        o = o - 1;
        if b[o] == 0x0a {
            k = k + 1;
        }
    }
    proof {
        assert(back_n_from(s, o as int, k as int, n as int) == o);
    }
    o
}

/// Each range after the first has its start pulled back over `overlap`
/// newline boundaries; ends are unchanged.
pub open spec fn apply_overlap(b: Seq<u8>, rs: Seq<(int, int)>, overlap: int) -> Seq<(int, int)> {
    Seq::new(
        rs.len(),
        |i: int|
            if i == 0 {
                rs[0]
            } else {
                (spec_back_n_lines(b, rs[i].0, overlap), rs[i].1)
            },
    )
}

// ---------------------------------------------------------------------------
// The blank-line chunker
// ---------------------------------------------------------------------------

/// The chunks of the blank-line fallback mode: blank-line blocks coalesced
/// toward the target budget, with overlap applied to starts.
pub open spec fn spec_chunk_blanklines(b: Seq<u8>, target: int, overlap: int) -> Seq<(int, int)> {
    apply_overlap(b, spec_merge_ranges(b, spec_blocks(b), target), overlap)
}

/// The ranges before overlap adjustment, whose previews the chunks keep.
pub open spec fn spec_blankline_merged(b: Seq<u8>, target: int) -> Seq<(int, int)> {
    spec_merge_ranges(b, spec_blocks(b), target)
}

/// Split text at blank lines and coalesce the blocks toward `target`
/// lines, then pull each later start back by `overlap` lines. Previews
/// describe the ranges before the overlap adjustment.
pub fn chunk_blanklines(text: &str, target: usize, overlap: usize) -> (r: Vec<
    (usize, usize, String),
>)
    ensures
        ({
            let b = encode_utf8(text@);
            let merged = spec_blankline_merged(b, target as int);
            let cs = spec_chunk_blanklines(b, target as int, overlap as int);
            &&& r@.len() == cs.len()
            &&& forall|k: int| 0 <= k < cs.len() ==> #[trigger] r@[k].0 == cs[k].0
            &&& forall|k: int| 0 <= k < cs.len() ==> #[trigger] r@[k].1 == cs[k].1
            &&& forall|k: int|
                0 <= k < cs.len() ==> #[trigger] r@[k].2@ == spec_preview_str(
                    b.subrange(merged[k].0, merged[k].1),
                )
        }),
{
    let b = str_bytes(text);
    let ghost bs = b@;
    let blocks = blocks_exec(&b);
    let merged = merge_ranges(&b, &blocks, target);
    let ghost merged_s = spec_blankline_merged(bs, target as int);
    proof {
        assert(merged@.map_values(|t: (usize, usize)| (t.0 as int, t.1 as int)) == merged_s);
    }
    let ghost cs = spec_chunk_blanklines(bs, target as int, overlap as int);
    let mut r: Vec<(usize, usize, String)> = Vec::new();
    let mut k: usize = 0;
    while k < merged.len()
        invariant
            k <= merged@.len(),
            b@ == bs,
            merged@.map_values(|t: (usize, usize)| (t.0 as int, t.1 as int)) == merged_s,
            forall|j: int|
                0 <= j < merged@.len() ==> (#[trigger] merged@[j]).0 <= merged@[j].1 <= bs.len(),
            merged_s == spec_blankline_merged(bs, target as int),
            cs == spec_chunk_blanklines(bs, target as int, overlap as int),
            cs.len() == merged_s.len(),
            r@.len() == k,
            forall|j: int| 0 <= j < k ==> #[trigger] r@[j].0 == cs[j].0,
            forall|j: int| 0 <= j < k ==> #[trigger] r@[j].1 == cs[j].1,
            forall|j: int|
                0 <= j < k ==> #[trigger] r@[j].2@ == spec_preview_str(
                    bs.subrange(merged_s[j].0, merged_s[j].1),
                ),
        decreases merged@.len() - k,
    {
        let (s, e) = (merged[k].0, merged[k].1);
        let part = subvec(&b, s, e);
        let pv = preview(&part);
        let ns = if k == 0 {
            s
        } else {
            back_n_lines_bytes(&b, s, overlap)
        };
        r.push((ns, e, pv));
        k = k + 1;
    }
    r
}

/// Every chunk of the blank-line mode lies within the text.
pub proof fn lemma_blanklines_bounds(b: Seq<u8>, target: int, overlap: int, k: int)
    requires
        0 <= k < spec_chunk_blanklines(b, target, overlap).len(),
    ensures
        ({
            let r = spec_chunk_blanklines(b, target, overlap)[k];
            0 <= r.0 <= r.1 <= b.len()
        }),
{
    lemma_blocks_bounds(b, 0, 0);
    let blocks = spec_blocks(b);
    assert forall|j: int| 1 <= j < blocks.len() implies blocks[0].0 <= (#[trigger] blocks[j]).0 by {
        lemma_sorted_starts(blocks, 0, j);
    }
    lemma_merge_bounds(b, blocks, 1, blocks[0], target);
    let merged = spec_merge_ranges(b, blocks, target);
    if k != 0 {
        lemma_back_n_le(b, merged[k].0, 0, overlap);
    }
}

} // verus!
