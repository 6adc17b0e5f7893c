//! Markdown heading hygiene for streamed reports: ATX headings must begin
//! on their own line, except inside fenced code blocks.

use vstd::prelude::*;
use vstd::string::StrSliceExecFns;
use crate::bytesutil::str_chars;
use crate::bytesutil::chars_to_string;

verus! {

/// A ``` fence opener sits at index `i`.
pub open spec fn fence_at(s: Seq<char>, i: int) -> bool {
    i + 3 <= s.len() && s[i] == '`' && s[i + 1] == '`' && s[i + 2] == '`'
}

/// Number of `#` characters at index `i` with `k` already counted,
/// counting at most six in all.
pub open spec fn hashes_bounded(s: Seq<char>, i: int, k: int) -> nat
    decreases 6 - k when 0 <= k <= 6
{
    if k < 6 && 0 <= i < s.len() && s[i] == '#' {
        1 + hashes_bounded(s, i + 1, k + 1)
    } else {
        0
    }
}

/// Number of leading `#` characters at index `i`, at most six.
pub open spec fn hashes_at(s: Seq<char>, i: int) -> nat {
    hashes_bounded(s, i, 0)
}

/// An ATX heading marker (`#` repeated, then a space) sits at index `i`.
pub open spec fn heading_marker_at(s: Seq<char>, i: int) -> bool {
    let h = hashes_at(s, i) as int;
    h > 0 && i + h < s.len() && s[i + h] == ' '
}

/// The character `c`, `n` times.
pub open spec fn repeat_char(c: char, n: nat) -> Seq<char>
    decreases n
{
    if n == 0 {
        Seq::empty()
    } else {
        repeat_char(c, (n - 1) as nat).push(c)
    }
}

/// What remains of the sanitized text from position `i`, given whether a
/// code fence is open, whether we sit at the start of a line, and the
/// character written last (if any).
pub open spec fn sanitize_md_from(
    s: Seq<char>,
    i: int,
    in_fence: bool,
    at_ls: bool,
    last: Option<char>,
) -> Seq<char>
    decreases s.len() - i when 0 <= i <= s.len()
{
    if i >= s.len() {
        Seq::empty()
    } else if at_ls && fence_at(s, i) {
        seq!['`', '`', '`'] + sanitize_md_from(s, i + 3, !in_fence, false, Some('`'))
    } else if !in_fence && !at_ls && s[i] == '#' && heading_marker_at(s, i) {
        let h = hashes_at(s, i) as int;
        let pad: Seq<char> = if last == Some('\n') {
            seq!['\n']
        } else {
            seq!['\n', '\n']
        };
        pad + repeat_char('#', h as nat) + seq![' '] + sanitize_md_from(
            s,
            i + h + 1,
            in_fence,
            false,
            Some(' '),
        )
    } else {
        let c = s[i];
        seq![c] + sanitize_md_from(s, i + 1, in_fence, c == '\n', Some(c))
    }
}

/// The sanitized form of a document: every ATX heading outside a code
/// fence begins after a blank line.
pub open spec fn spec_sanitize_markdown(s: Seq<char>) -> Seq<char> {
    sanitize_md_from(s, 0, false, true, None)
}

/// Whether scanning `s` from position `i` ends inside a fenced code block.
pub open spec fn fence_state_from(s: Seq<char>, i: int, in_fence: bool, at_ls: bool) -> bool
    decreases s.len() - i when 0 <= i <= s.len()
{
    if i >= s.len() {
        in_fence
    } else if at_ls && fence_at(s, i) {
        fence_state_from(s, i + 3, !in_fence, false)
    } else {
        fence_state_from(s, i + 1, in_fence, s[i] == '\n')
    }
}

/// Count the `#` run at `i` (at most six) and return the index after it.
fn count_hashes(cs: &Vec<char>, i: usize) -> (j: usize)
    requires
        i <= cs@.len(),
    ensures
        i <= j <= cs@.len(),
        j - i == hashes_at(cs@, i as int),
{
    let ghost s = cs@;
    let mut j: usize = i;
    let mut h: usize = 0;
    while j < cs.len() && cs[j] == '#' && h < 6
        invariant
            i <= j <= cs@.len(),
            cs@ == s,
            h == j - i,
            h <= 6,
            hashes_bounded(s, i as int, 0) == h + hashes_bounded(s, j as int, h as int),
        decreases cs@.len() - j,
    {
        proof {
            assert(hashes_bounded(s, j as int, h as int) == 1 + hashes_bounded(
                s,
                j as int + 1,
                h as int + 1,
            ));
        }
        j = j + 1;
        h = h + 1;
    }
    proof {
        assert(hashes_bounded(s, j as int, h as int) == 0);
    }
    j
}

/// Ensure headings like `## Title` begin on a new line (outside code
/// fences), inserting a blank line where streaming glued them to prose.
#[verifier::rlimit(60)]
pub fn sanitize_markdown_headings(input: &str) -> (r: String)
    ensures
        r@ == spec_sanitize_markdown(input@),
{
    let cs = str_chars(input);
    let ghost s = cs@;
    let mut out: Vec<char> = Vec::new();
    let mut in_fence: bool = false;
    let mut at_ls: bool = true;
    let mut i: usize = 0;
    while i < cs.len()
        invariant
            i <= cs@.len(),
            cs@ == s,
            spec_sanitize_markdown(s) == out@ + sanitize_md_from(
                s,
                i as int,
                in_fence,
                at_ls,
                if out@.len() == 0 {
                    None
                } else {
                    Some(out@.last())
                },
            ),
        decreases cs@.len() - i,
    {
        let ghost last = if out@.len() == 0 {
            None
        } else {
            Some(out@.last())
        };
        if at_ls && cs.len() - i >= 3 && cs[i] == '`' && cs[i + 1] == '`' && cs[i + 2] == '`' {
            out.push('`');
            out.push('`');
            out.push('`');
            in_fence = !in_fence;
            at_ls = false;
            i = i + 3;
            proof {
                assert(fence_at(s, i - 3));
                assert(sanitize_md_from(s, i - 3, !in_fence, true, last) == seq!['`', '`', '`']
                    + sanitize_md_from(s, i as int, in_fence, false, Some('`')));
                assert(out@ + sanitize_md_from(s, i as int, in_fence, at_ls, Some(out@.last()))
                    =~= spec_sanitize_markdown(s));
            }
        } else if !in_fence && !at_ls && cs[i] == '#' {
            let j = count_hashes(&cs, i);
            let h = j - i;
            if j < cs.len() && cs[j] == ' ' {
                assert(heading_marker_at(s, i as int));
                if out.len() == 0 || out[out.len() - 1] != '\n' {
                    out.push('\n');
                }
                out.push('\n');
                let ghost padded = out@;
                let mut k: usize = 0;
                while k < h
                    invariant
                        k <= h,
                        out@ == padded + repeat_char('#', k as nat),
                    decreases h - k,
                {
                    out.push('#');
                    proof {
                        assert(repeat_char('#', k as nat + 1) == repeat_char('#', k as nat).push(
                            '#',
                        ));
                        assert(out@ =~= padded + repeat_char('#', (k + 1) as nat));
                    }
                    k = k + 1;
                }
                out.push(' ');
                at_ls = false;
                i = j + 1;
                proof {
                    let pad: Seq<char> = if last == Some('\n') {
                        seq!['\n']
                    } else {
                        seq!['\n', '\n']
                    };
                    assert(sanitize_md_from(s, j - h, in_fence, false, last) == pad + repeat_char(
                        '#',
                        h as nat,
                    ) + seq![' '] + sanitize_md_from(s, i as int, in_fence, false, Some(' ')));
                    assert(out@ =~= (padded + repeat_char('#', h as nat)).push(' '));
                    assert(out@.last() == ' ');
                    assert(out@ + sanitize_md_from(s, i as int, in_fence, at_ls, Some(' '))
                        =~= spec_sanitize_markdown(s));
                }
            } else {
                let c = cs[i];
                assert(!heading_marker_at(s, i as int)) by {
                    assert(hashes_at(s, i as int) == j - i);
                }
                out.push(c);
                at_ls = false;
                i = i + 1;
                proof {
                    assert(c != '\n');
                    assert(sanitize_md_from(s, i - 1, in_fence, false, last) == seq![c]
                        + sanitize_md_from(s, i as int, in_fence, false, Some(c)));
                    assert(out@ + sanitize_md_from(s, i as int, in_fence, at_ls, Some(c))
                        =~= spec_sanitize_markdown(s));
                }
            }
        } else {
            let c = cs[i];
            out.push(c);
            let ghost old_at_ls = at_ls;
            at_ls = c == '\n';
            i = i + 1;
            proof {
                if old_at_ls && fence_at(s, i - 1) {
                    assert(i - 1 + 3 <= cs@.len());
                    assert(false);
                }
                assert(sanitize_md_from(s, i - 1, in_fence, old_at_ls, last) == seq![c]
                    + sanitize_md_from(s, i as int, in_fence, c == '\n', Some(c)));
                assert(out@ + sanitize_md_from(s, i as int, in_fence, at_ls, Some(c))
                    =~= spec_sanitize_markdown(s));
            }
        }
    }
    proof {
        assert(sanitize_md_from(
            s,
            i as int,
            in_fence,
            at_ls,
            if out@.len() == 0 {
                None
            } else {
                Some(out@.last())
            },
        ) =~= Seq::<char>::empty());
        assert(out@ + Seq::<char>::empty() =~= out@);
    }
    chars_to_string(&out)
}

/// Sanitize saved markdown before sending it to clients.
pub fn sanitize_markdown_for_display(input: &str) -> (r: String)
    ensures
        r@ == spec_sanitize_markdown(input@),
{
    sanitize_markdown_headings(input)
}

/// Return true if `next` starts with an ATX heading like `## `.
pub fn next_starts_with_atx_heading(next: &str) -> (r: bool)
    ensures
        r == heading_marker_at(next@, 0),
{
    let cs = str_chars(next);
    let j = count_hashes(&cs, 0);
    j > 0 && j < cs.len() && cs[j] == ' '
}

/// Scan `prev` and return whether it ends inside a fenced code block.
pub fn in_code_fence_at_end(prev: &str) -> (r: bool)
    ensures
        r == fence_state_from(prev@, 0, false, true),
{
    let cs = str_chars(prev);
    let ghost s = cs@;
    let mut in_fence: bool = false;
    let mut at_ls: bool = true;
    let mut i: usize = 0;
    while i < cs.len()
        invariant
            i <= cs@.len(),
            cs@ == s,
            fence_state_from(s, 0, false, true) == fence_state_from(
                s,
                i as int,
                in_fence,
                at_ls,
            ),
        decreases cs@.len() - i,
    {
        if at_ls && cs.len() - i >= 3 && cs[i] == '`' && cs[i + 1] == '`' && cs[i + 2] == '`' {
            proof {
                assert(fence_at(s, i as int));
                assert(fence_state_from(s, i as int, in_fence, at_ls) == fence_state_from(
                    s,
                    i as int + 3,
                    !in_fence,
                    false,
                ));
            }
            in_fence = !in_fence;
            at_ls = false;
            i = i + 3;
        } else {
            let c = cs[i];
            proof {
                if at_ls && fence_at(s, i as int) {
                    assert(i + 3 <= cs@.len());
                    assert(false);
                }
                assert(fence_state_from(s, i as int, in_fence, at_ls) == fence_state_from(
                    s,
                    i as int + 1,
                    in_fence,
                    c == '\n',
                ));
            }
            at_ls = c == '\n';
            i = i + 1;
        }
    }
    in_fence
}

/// Should a blank line be inserted before `next` so that a heading begins
/// on a new line while streaming?
pub fn needs_newline_before_heading(prev: &str, next: &str) -> (r: bool)
    ensures
        r == (prev@.len() > 0 && prev@.last() != '\n' && !fence_state_from(prev@, 0, false, true)
            && heading_marker_at(next@, 0)),
{
    if prev.unicode_len() == 0 {
        return false;
    }
    let lastc = prev.get_char(prev.unicode_len() - 1);
    if lastc == '\n' {
        return false;
    }
    if in_code_fence_at_end(prev) {
        return false;
    }
    next_starts_with_atx_heading(next)
}

} // verus!
