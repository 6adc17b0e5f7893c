//! Structural chunking for Rust and Python sources: tree-sitter parses the
//! text and yields the byte ranges of its item-level nodes, and the ranges
//! are sorted, bounds-checked, and coalesced toward the line budget exactly
//! as the blank-line chunker coalesces its blocks.

use vstd::prelude::*;
use vstd::utf8::encode_utf8;
use crate::bytesutil::str_bytes;
use crate::bytesutil::subvec;
use crate::chunk::spec_merge_ranges;
use crate::chunk::apply_overlap;
use crate::chunk::spec_preview_str;
use crate::chunk::spec_chunk_blanklines;
use crate::chunk::spec_blankline_merged;
use crate::chunk::chunk_blanklines;
use crate::chunk::preview;
use crate::chunk::back_n_lines_bytes;
use crate::chunk::merge_ranges;

verus! {

/// The byte ranges of the item-level nodes (functions, impls, traits,
/// structs, enums, modules) of the tree-sitter Rust parse of the text, in
/// depth-first walk order, or nothing when the grammar is rejected or the
/// parse fails. The value is fixed by the grammar and the text alone.
pub uninterp spec fn rust_item_ranges(b: Seq<u8>) -> Option<Seq<(int, int)>>;

/// The byte ranges of the function and class definitions of the
/// tree-sitter Python parse of the text, in depth-first walk order, or
/// nothing when the grammar is rejected or the parse fails. The value is
/// fixed by the grammar and the text alone.
pub uninterp spec fn python_item_ranges(b: Seq<u8>) -> Option<Seq<(int, int)>>;

/// Relies on tree-sitter with `tree_sitter_rust::LANGUAGE`: parsing has no
/// timeout or cancellation here, so the parse and the node walk depend on
/// the text alone, and the collected ranges are `rust_item_ranges`.
#[verifier::external_body]
fn rust_item_ranges_exec(text: &[u8]) -> (r: Option<Vec<(usize, usize)>>)
    ensures
        match (r, rust_item_ranges(text@)) {
            (Some(v), Some(s)) => v@.map_values(|t: (usize, usize)| (t.0 as int, t.1 as int))
                == s,
            (None, None) => true,
            _ => false,
        },
{
    let mut parser = tree_sitter::Parser::new();
    parser.set_language(&tree_sitter_rust::LANGUAGE.into()).ok()?;
    let tree = parser.parse(text, None)?;
    let mut stack = vec![tree.root_node()];
    let mut out = Vec::new();
    while let Some(n) = stack.pop() {
        if matches!(n.kind(), "function_item" | "impl_item" | "trait_item" | "struct_item" | "enum_item" | "mod_item") {
            out.push((n.start_byte(), n.end_byte()));
        }
        for i in 0..n.child_count() {
            stack.extend(n.child(i));
        }
    }
    Some(out)
}

/// Relies on tree-sitter with `tree_sitter_python::LANGUAGE`: parsing has
/// no timeout or cancellation here, so the parse and the node walk depend
/// on the text alone, and the collected ranges are `python_item_ranges`.
#[verifier::external_body]
fn python_item_ranges_exec(text: &[u8]) -> (r: Option<Vec<(usize, usize)>>)
    ensures
        match (r, python_item_ranges(text@)) {
            (Some(v), Some(s)) => v@.map_values(|t: (usize, usize)| (t.0 as int, t.1 as int))
                == s,
            (None, None) => true,
            _ => false,
        },
{
    let mut parser = tree_sitter::Parser::new();
    parser.set_language(&tree_sitter_python::LANGUAGE.into()).ok()?;
    let tree = parser.parse(text, None)?;
    let mut stack = vec![tree.root_node()];
    let mut out = Vec::new();
    while let Some(n) = stack.pop() {
        if matches!(n.kind(), "function_definition" | "class_definition") {
            out.push((n.start_byte(), n.end_byte()));
        }
        for i in 0..n.child_count() {
            stack.extend(n.child(i));
        }
    }
    Some(out)
}

// ---------------------------------------------------------------------------
// Sorting and sanitizing the collected ranges
// ---------------------------------------------------------------------------

/// `x` inserted after every range whose start is not greater.
pub open spec fn insert_by_start(s: Seq<(int, int)>, x: (int, int)) -> Seq<(int, int)>
    decreases s.len()
{
    if s.len() == 0 {
        seq![x]
    } else if s[0].0 <= x.0 {
        seq![s[0]] + insert_by_start(s.drop_first(), x)
    } else {
        seq![x] + s
    }
}

/// The ranges sorted by start: each taken in turn and inserted after its
/// earlier-started peers, which keeps equal starts in input order.
pub open spec fn spec_sort_ranges(rs: Seq<(int, int)>) -> Seq<(int, int)>
    decreases rs.len()
{
    if rs.len() == 0 {
        Seq::empty()
    } else {
        insert_by_start(spec_sort_ranges(rs.drop_last()), rs.last())
    }
}

/// The ranges that lie within the text, order preserved.
pub open spec fn spec_sanitize_ranges(rs: Seq<(int, int)>, len: int) -> Seq<(int, int)>
    decreases rs.len()
{
    if rs.len() == 0 {
        Seq::empty()
    } else {
        let rest = spec_sanitize_ranges(rs.drop_first(), len);
        if 0 <= rs[0].0 <= rs[0].1 <= len {
            seq![rs[0]] + rest
        } else {
            rest
        }
    }
}

/// Inserting at the first position whose start exceeds the new range's is
/// exactly `insert_by_start`.
proof fn lemma_insert_at(s: Seq<(int, int)>, x: (int, int), p: int)
    requires
        0 <= p <= s.len(),
        forall|j: int| 0 <= j < p ==> (#[trigger] s[j]).0 <= x.0,
        p < s.len() ==> !(s[p].0 <= x.0),
    ensures
        insert_by_start(s, x) == s.subrange(0, p).push(x) + s.subrange(p, s.len() as int),
    decreases s.len(),
{
    if p == 0 {
        if s.len() == 0 {
            assert(insert_by_start(s, x) =~= s.subrange(0, 0).push(x) + s.subrange(
                0,
                s.len() as int,
            ));
        } else {
            assert(!(s[0].0 <= x.0));
            assert(insert_by_start(s, x) =~= s.subrange(0, 0).push(x) + s.subrange(
                0,
                s.len() as int,
            ));
        }
    } else {
        assert(s[0].0 <= x.0);
        let d = s.drop_first();
        assert forall|j: int| 0 <= j < p - 1 implies (#[trigger] d[j]).0 <= x.0 by {
            assert(d[j] == s[j + 1]);
        }
        if p - 1 < d.len() {
            assert(d[p - 1] == s[p as int]);
        }
        lemma_insert_at(d, x, p - 1);
        assert(insert_by_start(s, x) == seq![s[0]] + insert_by_start(d, x));
        assert(seq![s[0]] + (d.subrange(0, p - 1).push(x) + d.subrange(p - 1, d.len() as int))
            =~= s.subrange(0, p).push(x) + s.subrange(p, s.len() as int));
    }
}

proof fn lemma_insert_keeps_sorted(before: Seq<(usize, usize)>, x: (usize, usize), p: int)
    requires
        0 <= p <= before.len(),
        forall|j: int| 0 < j < before.len() ==> (#[trigger] before[j - 1]).0 <= before[j].0,
        forall|j: int| 0 <= j < p ==> (#[trigger] before[j]).0 <= x.0,
        p < before.len() ==> !(before[p].0 <= x.0),
    ensures
        ({
            let nw = before.subrange(0, p).push(x) + before.subrange(p, before.len() as int);
            forall|j: int| 0 < j < nw.len() ==> (#[trigger] nw[j - 1]).0 <= nw[j].0
        }),
{
    let nw = before.subrange(0, p).push(x) + before.subrange(p, before.len() as int);
    assert forall|j: int| 0 < j < nw.len() implies (#[trigger] nw[j - 1]).0 <= nw[j].0 by {
        assert(forall|k: int| 0 <= k < p ==> nw[k] == (#[trigger] before[k]));
        assert(nw[p] == x);
        assert(forall|k: int| p < k < nw.len() ==> nw[k] == (#[trigger] before[k - 1]));
        if j < p {
        } else if j == p {
            assert(before[j - 1].0 <= x.0);
        } else if j == p + 1 {
            assert(!(before[p].0 <= x.0));
        } else {
            lemma_sorted_starts_usize(before, j - 2, j - 1);
        }
    }
}

proof fn lemma_sorted_starts_usize(rs: Seq<(usize, usize)>, i: int, j: int)
    requires
        forall|t: int| 0 < t < rs.len() ==> (#[trigger] rs[t - 1]).0 <= rs[t].0,
        0 <= i <= j < rs.len(),
    ensures
        rs[i].0 <= rs[j].0,
    decreases j - i,
{
    if i < j {
        lemma_sorted_starts_usize(rs, i, j - 1);
        assert(rs[j - 1].0 <= rs[j].0);
    }
}

/// Sort ranges by start, equal starts keeping input order: exactly
/// `spec_sort_ranges` of the input.
fn sort_ranges_by_start(rs: Vec<(usize, usize)>) -> (r: Vec<(usize, usize)>)
    ensures
        r@.map_values(|t: (usize, usize)| (t.0 as int, t.1 as int)) == spec_sort_ranges(
            rs@.map_values(|t: (usize, usize)| (t.0 as int, t.1 as int)),
        ),
        forall|j: int| 0 < j < r@.len() ==> (#[trigger] r@[j - 1]).0 <= r@[j].0,
        r@.len() == rs@.len(),
{
    let ghost rsv = rs@.map_values(|t: (usize, usize)| (t.0 as int, t.1 as int));
    let mut out: Vec<(usize, usize)> = Vec::new();
    proof {
        assert(rsv.subrange(0, 0) =~= Seq::<(int, int)>::empty());
        assert(out@.map_values(|t: (usize, usize)| (t.0 as int, t.1 as int)) =~= spec_sort_ranges(
            rsv.subrange(0, 0),
        ));
    }
    let mut i: usize = 0;
    while i < rs.len()
        invariant
            i <= rs@.len(),
            rsv == rs@.map_values(|t: (usize, usize)| (t.0 as int, t.1 as int)),
            out@.len() == i,
            out@.map_values(|t: (usize, usize)| (t.0 as int, t.1 as int)) == spec_sort_ranges(
                rsv.subrange(0, i as int),
            ),
            forall|j: int| 0 < j < out@.len() ==> (#[trigger] out@[j - 1]).0 <= out@[j].0,
        decreases rs@.len() - i,
    {
        let x = (rs[i].0, rs[i].1);
        let ghost xi: (int, int) = (x.0 as int, x.1 as int);
        proof {
            assert(rsv[i as int] == xi);
        }
        let mut p: usize = 0;
        while p < out.len() && out[p].0 <= x.0
            invariant
                p <= out@.len(),
                forall|j: int| 0 <= j < p ==> (#[trigger] out@[j]).0 <= x.0,
            decreases out@.len() - p,
        {
            p = p + 1;
        }
        let ghost before = out@;
        let mut nw: Vec<(usize, usize)> = Vec::new();
        let mut a: usize = 0;
        while a < p
            invariant
                a <= p <= before.len(),
                out@ == before,
                nw@ == before.subrange(0, a as int),
            decreases p - a,
        {
            nw.push((out[a].0, out[a].1));
            assert(nw@ =~= before.subrange(0, a + 1));
            a = a + 1;
        }
        nw.push(x);
        let mut c: usize = p;
        while c < out.len()
            invariant
                p <= c <= before.len(),
                out@ == before,
                nw@ == before.subrange(0, p as int).push(x) + before.subrange(p as int, c as int),
            decreases before.len() - c,
        {
            nw.push((out[c].0, out[c].1));
            assert(nw@ =~= before.subrange(0, p as int).push(x) + before.subrange(
                p as int,
                c + 1,
            ));
            c = c + 1;
        }
        proof {
            assert(nw@ =~= before.subrange(0, p as int).push(x) + before.subrange(
                p as int,
                before.len() as int,
            ));
            lemma_insert_keeps_sorted(before, x, p as int);
            let bv = before.map_values(|t: (usize, usize)| (t.0 as int, t.1 as int));
            let nv = nw@.map_values(|t: (usize, usize)| (t.0 as int, t.1 as int));
            assert forall|j: int| 0 <= j < p implies (#[trigger] bv[j]).0 <= xi.0 by {
                assert(bv[j] == (before[j].0 as int, before[j].1 as int));
            }
            if p < before.len() {
                assert(bv[p as int] == (before[p as int].0 as int, before[p as int].1 as int));
                assert(!(bv[p as int].0 <= xi.0));
            }
            lemma_insert_at(bv, xi, p as int);
            assert(nv =~= bv.subrange(0, p as int).push(xi) + bv.subrange(
                p as int,
                bv.len() as int,
            ));
            assert(nv == insert_by_start(bv, xi));
            let upto = rsv.subrange(0, i + 1);
            assert(upto.drop_last() =~= rsv.subrange(0, i as int));
            assert(upto.last() == xi);
            assert(spec_sort_ranges(upto) == insert_by_start(
                spec_sort_ranges(rsv.subrange(0, i as int)),
                xi,
            ));
        }
        out = nw;
        i = i + 1;
    }
    proof {
        assert(rsv.subrange(0, rsv.len() as int) =~= rsv);
    }
    out
}

/// Keep only ranges that lie within the text, order preserved: exactly
/// `spec_sanitize_ranges` of the input.
fn sanitize_ranges(rs: &Vec<(usize, usize)>, len: usize) -> (r: Vec<(usize, usize)>)
    requires
        forall|j: int| 0 < j < rs@.len() ==> (#[trigger] rs@[j - 1]).0 <= rs@[j].0,
    ensures
        r@.map_values(|t: (usize, usize)| (t.0 as int, t.1 as int)) == spec_sanitize_ranges(
            rs@.map_values(|t: (usize, usize)| (t.0 as int, t.1 as int)),
            len as int,
        ),
        forall|k: int| 0 <= k < r@.len() ==> (#[trigger] r@[k]).0 <= r@[k].1 <= len,
        forall|k: int| 0 < k < r@.len() ==> (#[trigger] r@[k - 1]).0 <= r@[k].0,
{
    let ghost s = rs@;
    let ghost sv = rs@.map_values(|t: (usize, usize)| (t.0 as int, t.1 as int));
    let mut r: Vec<(usize, usize)> = Vec::new();
    proof {
        assert(sv.skip(0) =~= sv);
    }
    let mut i: usize = 0;
    while i < rs.len()
        invariant
            i <= rs@.len(),
            rs@ == s,
            sv == rs@.map_values(|t: (usize, usize)| (t.0 as int, t.1 as int)),
            forall|j: int| 0 < j < s.len() ==> (#[trigger] s[j - 1]).0 <= s[j].0,
            forall|k: int| 0 <= k < r@.len() ==> (#[trigger] r@[k]).0 <= r@[k].1 <= len,
            forall|k: int| 0 < k < r@.len() ==> (#[trigger] r@[k - 1]).0 <= r@[k].0,
            forall|k: int|
                0 <= k < r@.len() ==> forall|j: int|
                    i <= j < s.len() ==> (#[trigger] r@[k]).0 <= (#[trigger] s[j]).0,
            spec_sanitize_ranges(sv, len as int) == r@.map_values(
                |t: (usize, usize)| (t.0 as int, t.1 as int),
            ) + spec_sanitize_ranges(sv.skip(i as int), len as int),
        decreases rs@.len() - i,
    {
        let ghost suf = sv.skip(i as int);
        proof {
            assert(suf[0] == sv[i as int]);
            assert(sv[i as int] == (s[i as int].0 as int, s[i as int].1 as int));
            assert(suf.drop_first() =~= sv.skip(i as int + 1));
        }
        let (a, b) = (rs[i].0, rs[i].1);
        let ghost rbefore = r@;
        if a <= b && b <= len {
            r.push((a, b));
            proof {
                assert(r@.map_values(|t: (usize, usize)| (t.0 as int, t.1 as int))
                    =~= rbefore.map_values(|t: (usize, usize)| (t.0 as int, t.1 as int)).push(
                    (a as int, b as int),
                ));
                assert(spec_sanitize_ranges(suf, len as int) == seq![(a as int, b as int)]
                    + spec_sanitize_ranges(sv.skip(i as int + 1), len as int));
                assert(spec_sanitize_ranges(sv, len as int) =~= r@.map_values(
                    |t: (usize, usize)| (t.0 as int, t.1 as int),
                ) + spec_sanitize_ranges(sv.skip(i as int + 1), len as int));
                assert forall|k: int| 0 <= k < r@.len() implies forall|j: int|
                    i as int + 1 <= j < s.len() ==> (#[trigger] r@[k]).0 <= (
                #[trigger] s[j]).0 by {
                    assert forall|j: int|
                        i as int + 1 <= j < s.len() implies (#[trigger] r@[k]).0 <= (
                    #[trigger] s[j]).0 by {
                        lemma_sorted_starts_usize(s, i as int, j);
                    }
                }
            }
        } else {
            proof {
                assert(spec_sanitize_ranges(suf, len as int) == spec_sanitize_ranges(
                    sv.skip(i as int + 1),
                    len as int,
                ));
            }
        }
        i = i + 1;
    }
    proof {
        assert(sv.skip(i as int) =~= Seq::<(int, int)>::empty());
        assert(r@.map_values(|t: (usize, usize)| (t.0 as int, t.1 as int)) + Seq::<
            (int, int),
        >::empty() =~= r@.map_values(|t: (usize, usize)| (t.0 as int, t.1 as int)));
    }
    r
}

// ---------------------------------------------------------------------------
// The structural pipeline and its chunkers
// ---------------------------------------------------------------------------

/// The item ranges remaining after sorting and bounds-checking.
pub open spec fn spec_clean_ranges(raw: Seq<(int, int)>, b: Seq<u8>) -> Seq<(int, int)> {
    spec_sanitize_ranges(spec_sort_ranges(raw), b.len() as int)
}

/// A structural parse yields chunks exactly when it found item ranges that
/// survive the bounds check.
pub open spec fn spec_structural_available(ranges: Option<Seq<(int, int)>>, b: Seq<u8>) -> bool {
    match ranges {
        None => false,
        Some(raw) => spec_clean_ranges(raw, b).len() > 0,
    }
}

/// The chunks are the coalesced, overlap-adjusted form of the cleaned item
/// ranges, each with the preview of its pre-overlap range.
pub open spec fn spec_structural_chunks(
    raw: Seq<(int, int)>,
    b: Seq<u8>,
    target: int,
    overlap: int,
    chunks: Seq<(usize, usize, String)>,
) -> bool {
    let clean = spec_clean_ranges(raw, b);
    let merged = spec_merge_ranges(b, clean, target);
    let cs = apply_overlap(b, merged, overlap);
    &&& chunks.len() == cs.len()
    &&& (forall|k: int| 0 <= k < cs.len() ==> (#[trigger] chunks[k]).0 == cs[k].0)
    &&& (forall|k: int| 0 <= k < cs.len() ==> (#[trigger] chunks[k]).1 == cs[k].1)
    &&& (forall|k: int|
        0 <= k < cs.len() ==> (#[trigger] chunks[k]).2@ == spec_preview_str(
            b.subrange(merged[k].0, merged[k].1),
        ))
}

/// Coalesce sorted in-bounds ranges toward `target` lines, apply `overlap`
/// to later starts, and attach previews of the pre-overlap ranges. This is
/// the exact pipeline shared by the structural chunkers.
pub fn structure_chunks(text: &str, ranges: &Vec<(usize, usize)>, target: usize, overlap: usize) -> (r: Vec<(usize, usize, String)>)
    requires
        ranges@.len() >= 1,
        forall|k: int|
            0 <= k < ranges@.len() ==> (#[trigger] ranges@[k]).0 <= ranges@[k].1 <= encode_utf8(
                text@,
            ).len(),
        forall|k: int| 0 < k < ranges@.len() ==> (#[trigger] ranges@[k - 1]).0 <= ranges@[k].0,
    ensures
        ({
            let b = encode_utf8(text@);
            let rs = ranges@.map_values(|t: (usize, usize)| (t.0 as int, t.1 as int));
            let merged = spec_merge_ranges(b, rs, target as int);
            let cs = apply_overlap(b, merged, overlap as int);
            &&& r@.len() == cs.len()
            &&& forall|k: int| 0 <= k < cs.len() ==> #[trigger] r@[k].0 == cs[k].0
            &&& forall|k: int| 0 <= k < cs.len() ==> #[trigger] r@[k].1 == cs[k].1
            &&& forall|k: int|
                0 <= k < cs.len() ==> #[trigger] r@[k].2@ == spec_preview_str(
                    b.subrange(merged[k].0, merged[k].1),
                )
            &&& forall|k: int| 0 <= k < r@.len() ==> (#[trigger] r@[k]).0 <= r@[k].1 <= b.len()
        }),
{
    let b = str_bytes(text);
    let ghost bs = b@;
    let merged = merge_ranges(&b, ranges, target);
    let ghost merged_s = spec_merge_ranges(
        bs,
        ranges@.map_values(|t: (usize, usize)| (t.0 as int, t.1 as int)),
        target as int,
    );
    let ghost cs = apply_overlap(bs, merged_s, overlap as int);
    let mut r: Vec<(usize, usize, String)> = Vec::new();
    let mut k: usize = 0;
    while k < merged.len()
        invariant
            k <= merged@.len(),
            b@ == bs,
            merged@.map_values(|t: (usize, usize)| (t.0 as int, t.1 as int)) == merged_s,
            forall|j: int|
                0 <= j < merged@.len() ==> (#[trigger] merged@[j]).0 <= merged@[j].1 <= bs.len(),
            cs == apply_overlap(bs, merged_s, overlap as int),
            cs.len() == merged_s.len(),
            r@.len() == k,
            forall|j: int| 0 <= j < k ==> #[trigger] r@[j].0 == cs[j].0,
            forall|j: int| 0 <= j < k ==> #[trigger] r@[j].1 == cs[j].1,
            forall|j: int|
                0 <= j < k ==> #[trigger] r@[j].2@ == spec_preview_str(
                    bs.subrange(merged_s[j].0, merged_s[j].1),
                ),
            forall|j: int| 0 <= j < k ==> (#[trigger] r@[j]).0 <= r@[j].1 <= bs.len(),
        decreases merged@.len() - k,
    {
        let (s, e) = (merged[k].0, merged[k].1);
        let part = subvec(&b, s, e);
        let pv = preview(&part);
        let ns = if k == 0 {
            s
        } else {
            back_n_lines_bytes(&b, s, overlap)
        };
        r.push((ns, e, pv));
        k = k + 1;
    }
    r
}

/// Chunk Rust source structurally from the item ranges of its tree-sitter
/// parse: nothing exactly when the parse fails or no in-bounds item range
/// remains; otherwise the coalesced, overlap-adjusted ranges with their
/// previews.
pub fn chunk_rust_treesitter(text: &str, target: usize, overlap: usize) -> (r: Option<
    Vec<(usize, usize, String)>,
>)
    ensures
        ({
            let b = encode_utf8(text@);
            let ranges = rust_item_ranges(b);
            &&& (r is Some <==> spec_structural_available(ranges, b))
            &&& (r is Some ==> spec_structural_chunks(
                ranges->0,
                b,
                target as int,
                overlap as int,
                r->0@,
            ))
        }),
        r is Some ==> forall|k: int|
            0 <= k < r->0@.len() ==> (#[trigger] r->0@[k]).0 <= r->0@[k].1 <= encode_utf8(
                text@,
            ).len(),
{
    let b = str_bytes(text);
    let raw = match rust_item_ranges_exec(&b) {
        None => {
            return None;
        },
        Some(v) => v,
    };
    let sorted = sort_ranges_by_start(raw);
    let clean = sanitize_ranges(&sorted, b.len());
    if clean.len() == 0 {
        return None;
    }
    Some(structure_chunks(text, &clean, target, overlap))
}

/// Chunk Python source structurally from the definition ranges of its
/// tree-sitter parse: nothing exactly when the parse fails or no in-bounds
/// range remains; otherwise the coalesced, overlap-adjusted ranges with
/// their previews.
pub fn chunk_python_treesitter(text: &str, target: usize, overlap: usize) -> (r: Option<
    Vec<(usize, usize, String)>,
>)
    ensures
        ({
            let b = encode_utf8(text@);
            let ranges = python_item_ranges(b);
            &&& (r is Some <==> spec_structural_available(ranges, b))
            &&& (r is Some ==> spec_structural_chunks(
                ranges->0,
                b,
                target as int,
                overlap as int,
                r->0@,
            ))
        }),
        r is Some ==> forall|k: int|
            0 <= k < r->0@.len() ==> (#[trigger] r->0@[k]).0 <= r->0@[k].1 <= encode_utf8(
                text@,
            ).len(),
{
    let b = str_bytes(text);
    let raw = match python_item_ranges_exec(&b) {
        None => {
            return None;
        },
        Some(v) => v,
    };
    let sorted = sort_ranges_by_start(raw);
    let clean = sanitize_ranges(&sorted, b.len());
    if clean.len() == 0 {
        return None;
    }
    Some(structure_chunks(text, &clean, target, overlap))
}

/// The blank-line fallback result, as the chunkers state it.
pub open spec fn spec_blankline_chunks(
    b: Seq<u8>,
    target: int,
    overlap: int,
    chunks: Seq<(usize, usize, String)>,
) -> bool {
    let merged = spec_blankline_merged(b, target);
    let cs = spec_chunk_blanklines(b, target, overlap);
    &&& chunks.len() == cs.len()
    &&& (forall|k: int| 0 <= k < cs.len() ==> (#[trigger] chunks[k]).0 == cs[k].0)
    &&& (forall|k: int| 0 <= k < cs.len() ==> (#[trigger] chunks[k]).1 == cs[k].1)
    &&& (forall|k: int|
        0 <= k < cs.len() ==> (#[trigger] chunks[k]).2@ == spec_preview_str(
            b.subrange(merged[k].0, merged[k].1),
        ))
}

/// Chunk by structure when the language has a grammar, falling back to
/// blank-line blocks when parsing fails or finds nothing, and by
/// blank-line blocks for every other language.
pub fn chunk_auto(text: &str, target: usize, overlap: usize, lang: &str) -> (r: Vec<
    (usize, usize, String),
>)
    ensures
        forall|k: int|
            0 <= k < r@.len() ==> (#[trigger] r@[k]).0 <= r@[k].1 <= encode_utf8(text@).len(),
        ({
            let b = encode_utf8(text@);
            &&& (lang@ == seq!['r', 'u', 's', 't'] ==> {
                let ranges = rust_item_ranges(b);
                if spec_structural_available(ranges, b) {
                    spec_structural_chunks(ranges->0, b, target as int, overlap as int, r@)
                } else {
                    spec_blankline_chunks(b, target as int, overlap as int, r@)
                }
            })
            &&& (lang@ == seq!['p', 'y', 't', 'h', 'o', 'n'] ==> {
                let ranges = python_item_ranges(b);
                if spec_structural_available(ranges, b) {
                    spec_structural_chunks(ranges->0, b, target as int, overlap as int, r@)
                } else {
                    spec_blankline_chunks(b, target as int, overlap as int, r@)
                }
            })
            &&& (!(lang@ == seq!['r', 'u', 's', 't'] || lang@ == seq!['p', 'y', 't', 'h', 'o', 'n'])
                ==> spec_blankline_chunks(b, target as int, overlap as int, r@))
        }),
{
    let lc = crate::bytesutil::str_chars(lang);
    let is_rust = lc.len() == 4 && lc[0] == 'r' && lc[1] == 'u' && lc[2] == 's' && lc[3] == 't';
    let is_python = lc.len() == 6 && lc[0] == 'p' && lc[1] == 'y' && lc[2] == 't' && lc[3] == 'h'
        && lc[4] == 'o' && lc[5] == 'n';
    proof {
        assert(is_rust == (lang@ == seq!['r', 'u', 's', 't'])) by {
            if lang@ == seq!['r', 'u', 's', 't'] {
                assert(lang@.len() == 4 && lang@[0] == 'r' && lang@[1] == 'u' && lang@[2] == 's'
                    && lang@[3] == 't');
            }
            if is_rust {
                assert(lang@ =~= seq!['r', 'u', 's', 't']);
            }
        }
        assert(is_python == (lang@ == seq!['p', 'y', 't', 'h', 'o', 'n'])) by {
            if lang@ == seq!['p', 'y', 't', 'h', 'o', 'n'] {
                assert(lang@.len() == 6 && lang@[0] == 'p' && lang@[1] == 'y' && lang@[2] == 't'
                    && lang@[3] == 'h' && lang@[4] == 'o' && lang@[5] == 'n');
            }
            if is_python {
                assert(lang@ =~= seq!['p', 'y', 't', 'h', 'o', 'n']);
            }
        }
    }
    if is_rust {
        match chunk_rust_treesitter(text, target, overlap) {
            Some(c) => {
                return c;
            },
            None => {},
        }
    }
    if is_python {
        match chunk_python_treesitter(text, target, overlap) {
            Some(c) => {
                return c;
            },
            None => {},
        }
    }
    let r = chunk_blanklines(text, target, overlap);
    proof {
        let b = encode_utf8(text@);
        let merged = spec_blankline_merged(b, target as int);
        let cs = spec_chunk_blanklines(b, target as int, overlap as int);
        assert(cs.len() == merged.len());
        assert forall|k: int| 0 <= k < r@.len() implies (#[trigger] r@[k]).0 <= r@[k].1
            <= b.len() by {
            assert(r@[k].0 == cs[k].0 && r@[k].1 == cs[k].1);
            crate::chunk::lemma_blanklines_bounds(b, target as int, overlap as int, k);
        }
    }
    r
}

} // verus!
