//! The ignore ruleset: a line-oriented pattern file at the repository
//! root, with a default materialized on first read, and management
//! operations over the deduplicated, sorted pattern set.

use vstd::prelude::*;
use vstd::string::StrSliceExecFns;
use crate::bytesutil::str_chars;
use crate::bytesutil::chars_to_string;

verus! {

/// The default ignore ruleset written when no ignore file exists.
pub const DEFAULT_IGNORE: &'static str = "# Patterns ignored by the local code index (glob-like)\n# Hidden files/dirs\n.*\n# VCS / tooling / caches\n.git\n.codex\n.idea\n.vscode\nnode_modules\ntarget\ndist\nbuild\n";

/// An ASCII whitespace character.
pub open spec fn is_ws_char(c: char) -> bool {
    c == ' ' || c == '\t' || c == '\n' || c == '\r' || c == '\u{b}' || c == '\u{c}'
}

fn ws_char(c: char) -> (r: bool)
    ensures
        r == is_ws_char(c),
{
    c == ' ' || c == '\t' || c == '\n' || c == '\r' || c == '\u{b}' || c == '\u{c}'
}

/// Length of the whitespace run beginning at `i`.
pub open spec fn cws_from(s: Seq<char>, i: int) -> nat
    decreases s.len() - i when 0 <= i <= s.len()
{
    if i < s.len() && is_ws_char(s[i]) {
        1 + cws_from(s, i + 1)
    } else {
        0
    }
}

/// Length of the whitespace run ending just before `i`.
pub open spec fn cws_back(s: Seq<char>, i: int) -> nat
    decreases i when 0 <= i <= s.len()
{
    if i > 0 && is_ws_char(s[i - 1]) {
        1 + cws_back(s, i - 1)
    } else {
        0
    }
}

/// A line with surrounding ASCII whitespace removed.
pub open spec fn trim_chars(s: Seq<char>) -> Seq<char> {
    let start = cws_from(s, 0) as int;
    if start == s.len() {
        Seq::empty()
    } else {
        s.subrange(start, s.len() - cws_back(s, s.len() as int))
    }
}

/// Trim ASCII whitespace from both ends of a character line.
fn trim_chars_exec(v: &[char]) -> (r: Vec<char>)
    ensures
        r@ == trim_chars(v@),
{
    let ghost s = v@;
    let mut start: usize = 0;
    while start < v.len() && ws_char(v[start])
        invariant
            start <= v@.len(),
            v@ == s,
            cws_from(s, 0) == start + cws_from(s, start as int),
        decreases v@.len() - start,
    {
        proof {
            assert(cws_from(s, start as int) == 1 + cws_from(s, start as int + 1));
        }
        start = start + 1;
    }
    assert(cws_from(s, start as int) == 0);
    assert(cws_from(s, 0) == start);
    if start == v.len() {
        assert(trim_chars(s) =~= Seq::<char>::empty());
        return Vec::new();
    }
    assert(!is_ws_char(s[start as int]));
    let mut end: usize = v.len();
    while end > start && ws_char(v[end - 1])
        invariant
            start < end <= v@.len(),
            v@ == s,
            start == cws_from(s, 0),
            start < v@.len(),
            !is_ws_char(s[start as int]),
            cws_back(s, s.len() as int) == (s.len() - end) + cws_back(s, end as int),
        decreases end,
    {
        proof {
            assert(cws_back(s, end as int) == 1 + cws_back(s, end as int - 1));
            if end - 1 == start {
                assert(is_ws_char(s[start as int]));
                assert(false);
            }
        }
        end = end - 1;
    }
    proof {
        assert(cws_back(s, end as int) == 0);
        assert(cws_back(s, s.len() as int) == s.len() - end);
    }
    let mut r: Vec<char> = Vec::new();
    let mut i: usize = start;
    while i < end
        invariant
            start <= i <= end <= v@.len(),
            v@ == s,
            r@ == s.subrange(start as int, i as int),
        decreases end - i,
    {
        r.push(v[i]);
        assert(r@ =~= s.subrange(start as int, i + 1));
        i = i + 1;
    }
    r
}

/// Keep a trimmed line when it is non-empty and not a comment.
pub open spec fn keep_line(l: Seq<char>) -> bool {
    l.len() > 0 && l[0] != '#'
}

/// The patterns of the ignore file content: each newline-separated line,
/// trimmed, with blank lines and `#` comments dropped.
pub open spec fn spec_ignore_patterns(s: Seq<char>, i: int) -> Seq<Seq<char>>
    decreases s.len() - i when 0 <= i <= s.len()
    via spec_ignore_patterns_dec
{
    if i >= s.len() {
        Seq::empty()
    } else {
        let nl = next_nl(s, i);
        let line = trim_chars(s.subrange(i, nl));
        let rest = if nl < s.len() {
            spec_ignore_patterns(s, nl + 1)
        } else {
            Seq::empty()
        };
        if keep_line(line) {
            seq![line] + rest
        } else {
            rest
        }
    }
}

/// The index of the newline ending the line at `i`, or the end.
pub open spec fn next_nl(s: Seq<char>, i: int) -> int
    decreases s.len() - i when 0 <= i <= s.len()
{
    if i >= s.len() {
        i
    } else if s[i] == '\n' {
        i
    } else {
        next_nl(s, i + 1)
    }
}

#[via_fn]
proof fn spec_ignore_patterns_dec(s: Seq<char>, i: int) {
    if 0 <= i <= s.len() && i < s.len() {
        lemma_next_nl(s, i);
    }
}

proof fn lemma_next_nl(s: Seq<char>, i: int)
    requires
        0 <= i <= s.len(),
    ensures
        i <= next_nl(s, i) <= s.len(),
        forall|j: int| i <= j < next_nl(s, i) ==> s[j] != '\n',
        next_nl(s, i) < s.len() ==> s[next_nl(s, i)] == '\n',
    decreases s.len() - i,
{
    if i < s.len() && s[i] != '\n' {
        lemma_next_nl(s, i + 1);
    }
}

/// Read the patterns out of the ignore file content.
pub fn load_ignore_patterns(content: &str) -> (r: Vec<String>)
    ensures
        r@.map_values(|p: String| p@) == spec_ignore_patterns(content@, 0),
{
    let cs = str_chars(content);
    let ghost s = cs@;
    let mut r: Vec<String> = Vec::new();
    let mut i: usize = 0;
    proof {
        assert(r@.map_values(|p: String| p@) =~= Seq::<Seq<char>>::empty());
    }
    while i < cs.len()
        invariant_except_break
            i <= cs@.len(),
            cs@ == s,
            spec_ignore_patterns(s, 0) == r@.map_values(|p: String| p@) + spec_ignore_patterns(
                s,
                i as int,
            ),
        ensures
            spec_ignore_patterns(s, 0) == r@.map_values(|p: String| p@),
        decreases cs@.len() - i,
    {
        let ghost rem = spec_ignore_patterns(s, i as int);
        let mut j: usize = i;
        while j < cs.len() && cs[j] != '\n'
            invariant
                i <= j <= cs@.len(),
                cs@ == s,
                next_nl(s, i as int) == next_nl(s, j as int),
            decreases cs@.len() - j,
        {
            proof {
                assert(next_nl(s, j as int) == next_nl(s, j as int + 1));
            }
            j = j + 1;
        }
        proof {
            assert(next_nl(s, j as int) == j);
            assert(next_nl(s, i as int) == j);
        }
        let line_raw = crate::scan::subchars_pub(&cs, i, j);
        let line = trim_chars_exec(&line_raw);
        let ghost before = r@;
        if line.len() > 0 && line[0] != '#' {
            r.push(chars_to_string(&line));
            proof {
                assert(r@.map_values(|p: String| p@) =~= before.map_values(|p: String| p@).push(
                    trim_chars(s.subrange(i as int, j as int)),
                ));
            }
        }
        proof {
            let line_s = trim_chars(s.subrange(i as int, j as int));
            if j < cs@.len() {
                assert(rem == if keep_line(line_s) {
                    seq![line_s] + spec_ignore_patterns(s, j as int + 1)
                } else {
                    spec_ignore_patterns(s, j as int + 1)
                });
                assert(spec_ignore_patterns(s, 0) =~= r@.map_values(|p: String| p@)
                    + spec_ignore_patterns(s, j as int + 1));
            } else {
                assert(rem == if keep_line(line_s) {
                    seq![line_s] + Seq::<Seq<char>>::empty()
                } else {
                    Seq::<Seq<char>>::empty()
                });
                assert(rem =~= if keep_line(line_s) {
                    seq![line_s]
                } else {
                    Seq::<Seq<char>>::empty()
                });
                assert(spec_ignore_patterns(s, 0) =~= r@.map_values(|p: String| p@));
            }
        }
        if j >= cs.len() {
            break;
        }
        i = j + 1;
    }
    r
}

/// Strict lexicographic order on character sequences, by code point; this
/// is the order in which the pattern file is kept.
pub open spec fn chars_lt(a: Seq<char>, b: Seq<char>) -> bool
    decreases a.len()
{
    if b.len() == 0 {
        false
    } else if a.len() == 0 {
        true
    } else if a[0] != b[0] {
        a[0] < b[0]
    } else {
        chars_lt(a.drop_first(), b.drop_first())
    }
}

/// Compare two strings in the pattern order.
pub fn str_lt(a: &String, b: &String) -> (r: bool)
    ensures
        r == chars_lt(a@, b@),
{
    let ca = str_chars(a.as_str());
    let cb = str_chars(b.as_str());
    proof {
        assert(ca@.skip(0) =~= ca@);
        assert(cb@.skip(0) =~= cb@);
    }
    chars_lt_exec(&ca, &cb, 0)
}

fn chars_lt_exec(a: &Vec<char>, b: &Vec<char>, from: usize) -> (r: bool)
    requires
        from <= a@.len(),
        from <= b@.len(),
    ensures
        r == chars_lt(a@.skip(from as int), b@.skip(from as int)),
    decreases a@.len() - from,
{
    let ghost sa = a@.skip(from as int);
    let ghost sb = b@.skip(from as int);
    if b.len() == from {
        assert(sb.len() == 0);
        return false;
    }
    if a.len() == from {
        assert(sa.len() == 0 && sb.len() > 0);
        return true;
    }
    proof {
        assert(sa[0] == a@[from as int]);
        assert(sb[0] == b@[from as int]);
        assert(sa.drop_first() =~= a@.skip(from as int + 1));
        assert(sb.drop_first() =~= b@.skip(from as int + 1));
    }
    if a[from] != b[from] {
        a[from] < b[from]
    } else {
        chars_lt_exec(a, b, from + 1)
    }
}

fn str_eq(a: &String, b: &String) -> (r: bool)
    ensures
        r == (a@ == b@),
{
    a.eq(b)
}

/// Sort patterns and drop duplicates: the result is strictly ascending and
/// holds exactly the set of input patterns.
pub fn sorted_dedup(pats: &Vec<String>) -> (r: Vec<String>)
    ensures
        forall|j: int| 0 < j < r@.len() ==> chars_lt(#[trigger] r@[j - 1]@, r@[j]@),
        forall|j: int| 0 <= j < r@.len() ==> in_views((#[trigger] r@[j])@, pats@),
        forall|k: int| 0 <= k < pats@.len() ==> in_views((#[trigger] pats@[k])@, r@),
{
    let mut out: Vec<String> = Vec::new();
    let mut i: usize = 0;
    while i < pats.len()
        invariant
            i <= pats@.len(),
            forall|j: int| 0 < j < out@.len() ==> chars_lt(#[trigger] out@[j - 1]@, out@[j]@),
            forall|j: int| 0 <= j < out@.len() ==> in_views((#[trigger] out@[j])@, pats@),
            forall|k: int| 0 <= k < i ==> in_views((#[trigger] pats@[k])@, out@),
        decreases pats@.len() - i,
    {
        let x = &pats[i];
        let mut p: usize = 0;
        while p < out.len() && str_lt(&out[p], x)
            invariant
                p <= out@.len(),
                forall|j: int| 0 <= j < p ==> chars_lt((#[trigger] out@[j])@, x@),
            decreases out@.len() - p,
        {
            p = p + 1;
        }
        if p < out.len() && str_eq(&out[p], x) {
            proof {
                assert(out@[p as int]@ == pats@[i as int]@);
                assert(in_views(pats@[i as int]@, out@));
            }
        } else {
            let ghost before = out@;
            let mut nw: Vec<String> = Vec::new();
            let mut a: usize = 0;
            while a < p
                invariant
                    a <= p <= before.len(),
                    out@ == before,
                    nw@.len() == a,
                    forall|k: int| 0 <= k < a ==> (#[trigger] nw@[k])@ == before[k]@,
                decreases p - a,
            {
                nw.push(out[a].clone());
                a = a + 1;
            }
            nw.push(x.clone());
            let mut c: usize = p;
            while c < out.len()
                invariant
                    p <= c <= before.len(),
                    out@ == before,
                    nw@.len() == c + 1,
                    forall|k: int| 0 <= k < p ==> (#[trigger] nw@[k])@ == before[k]@,
                    nw@[p as int]@ == x@,
                    forall|k: int| p < k < nw@.len() ==> (#[trigger] nw@[k])@ == before[k - 1]@,
                decreases before.len() - c,
            {
                nw.push(out[c].clone());
                c = c + 1;
            }
            proof {
                let bv = before.map_values(|q: String| q@);
                let nv = nw@.map_values(|q: String| q@);
                assert(nv =~= bv.subrange(0, p as int).push(x@) + bv.subrange(
                    p as int,
                    bv.len() as int,
                ));
                assert forall|j: int| 0 < j < nv.len() implies chars_lt(
                    #[trigger] nv[j - 1],
                    nv[j],
                ) by {
                    lemma_strict_sorted_insert(bv, x@, p as int, j);
                }
                assert forall|j: int| 0 < j < nw@.len() implies chars_lt(
                    (#[trigger] nw@[j - 1])@,
                    nw@[j]@,
                ) by {
                    assert(nw@[j - 1]@ == nv[j - 1] && nw@[j]@ == nv[j]);
                }
                assert forall|j: int| 0 <= j < nw@.len() implies in_views(
                    (#[trigger] nw@[j])@,
                    pats@,
                ) by {
                    if j < p {
                        assert(nw@[j]@ == before[j]@);
                        assert(in_views(before[j]@, pats@));
                    } else if j == p {
                        assert(nw@[j]@ == pats@[i as int]@);
                    } else {
                        assert(nw@[j]@ == before[j - 1]@);
                        assert(in_views(before[j - 1]@, pats@));
                    }
                }
                assert forall|k: int| 0 <= k < i + 1 implies in_views(
                    (#[trigger] pats@[k])@,
                    nw@,
                ) by {
                    if k < i {
                        assert(in_views(pats@[k]@, before));
                        let jj = choose|jj: int|
                            0 <= jj < before.len() && (#[trigger] before[jj])@ == pats@[k]@;
                        if jj < p {
                            assert(nw@[jj]@ == pats@[k]@);
                        } else {
                            assert(nw@[jj + 1]@ == pats@[k]@);
                        }
                    } else {
                        assert(nw@[p as int]@ == pats@[k]@);
                    }
                }
            }
            out = nw;
        }
        i = i + 1;
    }
    out
}

proof fn lemma_strict_sorted_insert(before: Seq<Seq<char>>, x: Seq<char>, p: int, j: int)
    requires
        0 <= p <= before.len(),
        forall|t: int| 0 < t < before.len() ==> chars_lt(#[trigger] before[t - 1], before[t]),
        forall|t: int| 0 <= t < p ==> chars_lt(#[trigger] before[t], x),
        p < before.len() ==> !chars_lt(before[p], x) && before[p] != x,
        0 < j < before.len() + 1,
    ensures
        ({
            let nw = before.subrange(0, p).push(x) + before.subrange(p, before.len() as int);
            chars_lt(nw[j - 1], nw[j])
        }),
{
    let nw = before.subrange(0, p).push(x) + before.subrange(p, before.len() as int);
    assert(forall|k: int| 0 <= k < p ==> nw[k] == (#[trigger] before[k]));
    assert(nw[p] == x);
    assert(forall|k: int| p < k < nw.len() ==> nw[k] == (#[trigger] before[k - 1]));
    if j < p {
    } else if j == p {
        assert(chars_lt(before[j - 1], x));
    } else if j == p + 1 {
        assert(!chars_lt(before[p], x) && before[p] != x);
        lemma_chars_lt_total(x, before[p]);
    } else {
        lemma_chars_sorted_pair(before, j - 2, j - 1);
    }
}

/// The order is total: two different strings compare one way or the other.
proof fn lemma_chars_lt_total(a: Seq<char>, b: Seq<char>)
    requires
        !chars_lt(b, a),
        a != b,
    ensures
        chars_lt(a, b),
    decreases a.len() + b.len(),
{
    if b.len() == 0 {
        if a.len() == 0 {
            assert(a =~= b);
            assert(false);
        } else {
            assert(chars_lt(b, a));
            assert(false);
        }
    } else if a.len() == 0 {
    } else if a[0] != b[0] {
    } else {
        if a.drop_first() == b.drop_first() {
            assert(a.drop_first().len() == b.drop_first().len());
            assert(a.len() == b.len());
            assert forall|t: int| 0 <= t < a.len() implies a[t] == b[t] by {
                if t > 0 {
                    assert(a.drop_first()[t - 1] == b.drop_first()[t - 1]);
                    assert(a.drop_first()[t - 1] == a[t]);
                    assert(b.drop_first()[t - 1] == b[t]);
                }
            }
            assert(a =~= b);
            assert(false);
        }
        lemma_chars_lt_total(a.drop_first(), b.drop_first());
    }
}

proof fn lemma_chars_sorted_pair(rs: Seq<Seq<char>>, i: int, j: int)
    requires
        forall|t: int| 0 < t < rs.len() ==> chars_lt(#[trigger] rs[t - 1], rs[t]),
        0 <= i <= j < rs.len(),
    ensures
        i < j ==> chars_lt(rs[i], rs[j]),
    decreases j - i,
{
    if i < j {
        lemma_chars_sorted_pair(rs, i, j - 1);
        if i < j - 1 {
            lemma_chars_lt_trans(rs[i], rs[j - 1], rs[j]);
        }
    }
}


/// The order is asymmetric: no two strings are each below the other.
pub proof fn lemma_chars_lt_asym(a: Seq<char>, b: Seq<char>)
    requires
        chars_lt(a, b),
    ensures
        !chars_lt(b, a),
    decreases a.len() + b.len(),
{
    if b.len() == 0 {
    } else if a.len() == 0 {
    } else if a[0] != b[0] {
    } else {
        lemma_chars_lt_asym(a.drop_first(), b.drop_first());
    }
}

/// The order is transitive.
proof fn lemma_chars_lt_trans(a: Seq<char>, b: Seq<char>, c: Seq<char>)
    requires
        chars_lt(a, b),
        chars_lt(b, c),
    ensures
        chars_lt(a, c),
    decreases a.len() + b.len() + c.len(),
{
    if c.len() == 0 {
    } else if a.len() == 0 {
    } else if b.len() == 0 {
    } else if a[0] != b[0] || b[0] != c[0] {
    } else {
        lemma_chars_lt_trans(a.drop_first(), b.drop_first(), c.drop_first());
    }
}

/// The saved form of the pattern set: the patterns joined by newlines,
/// with one trailing newline.
pub open spec fn spec_join_lines(pats: Seq<Seq<char>>, i: int) -> Seq<char>
    decreases pats.len() - i when 0 <= i <= pats.len()
{
    if i >= pats.len() {
        Seq::empty()
    } else if i + 1 == pats.len() {
        pats[i] + seq!['\n']
    } else {
        pats[i] + seq!['\n'] + spec_join_lines(pats, i + 1)
    }
}

/// Join patterns into the file content: newline-separated, one trailing
/// newline; empty input gives a single newline, as joining no patterns
/// leaves only the terminator.
pub fn render_ignore_patterns(pats: &Vec<String>) -> (r: String)
    ensures
        pats@.len() > 0 ==> r@ == spec_join_lines(pats@.map_values(|p: String| p@), 0),
        pats@.len() == 0 ==> r@ == seq!['\n'],
{
    let ghost pv = pats@.map_values(|p: String| p@);
    let mut out: Vec<char> = Vec::new();
    if pats.len() == 0 {
        out.push('\n');
        assert(out@ =~= seq!['\n']);
        return chars_to_string(&out);
    }
    let ghost mut acc: Seq<char> = Seq::empty();
    let mut i: usize = 0;
    while i < pats.len()
        invariant
            i <= pats@.len(),
            pats@.len() > 0,
            pv == pats@.map_values(|p: String| p@),
            out@ == acc,
            i < pats@.len() ==> spec_join_lines(pv, 0) == acc + spec_join_lines(pv, i as int),
            i == pats@.len() ==> spec_join_lines(pv, 0) == acc,
        decreases pats@.len() - i,
    {
        let ghost before = out@;
        let cs = str_chars(pats[i].as_str());
        let mut k: usize = 0;
        while k < cs.len()
            invariant
                k <= cs@.len(),
                cs@ == pv[i as int],
                out@ == before + cs@.subrange(0, k as int),
            decreases cs@.len() - k,
        {
            out.push(cs[k]);
            assert(out@ =~= before + cs@.subrange(0, k + 1));
            k = k + 1;
        }
        out.push('\n');
        proof {
            assert(cs@.subrange(0, cs@.len() as int) =~= cs@);
            assert(out@ =~= before + (pv[i as int] + seq!['\n']));
            if i as int + 1 == pv.len() {
                assert(spec_join_lines(pv, i as int) == pv[i as int] + seq!['\n']);
            } else {
                assert(spec_join_lines(pv, i as int) == pv[i as int] + seq!['\n']
                    + spec_join_lines(pv, i as int + 1));
            }
            acc = acc + (pv[i as int] + seq!['\n']);
            assert(out@ =~= acc);
            if i as int + 1 < pv.len() {
                assert(spec_join_lines(pv, 0) =~= acc + spec_join_lines(pv, i as int + 1));
            } else {
                assert(spec_join_lines(pv, 0) =~= acc);
            }
        }
        i = i + 1;
    }
    chars_to_string(&out)
}

/// Membership of a string view in a list of strings.
pub open spec fn in_views(x: Seq<char>, ps: Seq<String>) -> bool {
    exists|k: int| 0 <= k < ps.len() && (#[trigger] ps[k])@ == x
}

/// Apply an ignore-management change: extend the current patterns with the
/// additions, then drop every pattern listed for removal. Order and
/// duplicates are settled afterwards by `sorted_dedup`.
pub fn apply_ignore_edits(current: &Vec<String>, add: &Vec<String>, remove: &Vec<String>) -> (r:
    Vec<String>)
    ensures
        forall|j: int|
            0 <= j < r@.len() ==> (in_views((#[trigger] r@[j])@, current@) || in_views(
                r@[j]@,
                add@,
            )) && !in_views(r@[j]@, remove@),
        forall|k: int|
            0 <= k < current@.len() ==> (in_views((#[trigger] current@[k])@, remove@) || in_views(
                current@[k]@,
                r@,
            )),
        forall|k: int|
            0 <= k < add@.len() ==> (in_views((#[trigger] add@[k])@, remove@) || in_views(
                add@[k]@,
                r@,
            )),
{
    let mut r: Vec<String> = Vec::new();
    let mut i: usize = 0;
    while i < current.len()
        invariant
            i <= current@.len(),
            forall|j: int|
                0 <= j < r@.len() ==> (in_views((#[trigger] r@[j])@, current@) || in_views(
                    r@[j]@,
                    add@,
                )) && !in_views(r@[j]@, remove@),
            forall|k: int|
                0 <= k < i ==> (in_views((#[trigger] current@[k])@, remove@) || in_views(
                    current@[k]@,
                    r@,
                )),
        decreases current@.len() - i,
    {
        if !contains_view(remove, &current[i]) {
            let ghost before = r@;
            r.push(current[i].clone());
            proof {
                assert(r@[before.len() as int]@ == current@[i as int]@);
                assert(in_views(current@[i as int]@, r@));
                assert forall|k: int|
                    0 <= k < i implies (in_views((#[trigger] current@[k])@, remove@) || in_views(
                    current@[k]@,
                    r@,
                )) by {
                    if in_views(current@[k]@, before) {
                        let jj = choose|jj: int|
                            0 <= jj < before.len() && (#[trigger] before[jj])@ == current@[k]@;
                        assert(r@[jj]@ == current@[k]@);
                    }
                }
            }
        }
        i = i + 1;
    }
    let ghost after_current = r@;
    let mut k: usize = 0;
    while k < add.len()
        invariant
            k <= add@.len(),
            forall|j: int|
                0 <= j < r@.len() ==> (in_views((#[trigger] r@[j])@, current@) || in_views(
                    r@[j]@,
                    add@,
                )) && !in_views(r@[j]@, remove@),
            forall|t: int|
                0 <= t < current@.len() ==> (in_views((#[trigger] current@[t])@, remove@)
                    || in_views(current@[t]@, r@)),
            forall|t: int|
                0 <= t < k ==> (in_views((#[trigger] add@[t])@, remove@) || in_views(
                    add@[t]@,
                    r@,
                )),
        decreases add@.len() - k,
    {
        if !contains_view(remove, &add[k]) {
            let ghost before = r@;
            r.push(add[k].clone());
            proof {
                assert(r@[before.len() as int]@ == add@[k as int]@);
                assert(in_views(add@[k as int]@, r@));
                assert forall|t: int|
                    0 <= t < current@.len() implies (in_views(
                    (#[trigger] current@[t])@,
                    remove@,
                ) || in_views(current@[t]@, r@)) by {
                    if in_views(current@[t]@, before) {
                        let jj = choose|jj: int|
                            0 <= jj < before.len() && (#[trigger] before[jj])@ == current@[t]@;
                        assert(r@[jj]@ == current@[t]@);
                    }
                }
                assert forall|t: int|
                    0 <= t < k implies (in_views((#[trigger] add@[t])@, remove@) || in_views(
                    add@[t]@,
                    r@,
                )) by {
                    if in_views(add@[t]@, before) {
                        let jj = choose|jj: int|
                            0 <= jj < before.len() && (#[trigger] before[jj])@ == add@[t]@;
                        assert(r@[jj]@ == add@[t]@);
                    }
                }
            }
        }
        k = k + 1;
    }
    r
}

/// Is a string with this view among the given strings?
fn contains_view(ps: &Vec<String>, x: &String) -> (r: bool)
    ensures
        r == in_views(x@, ps@),
{
    let mut i: usize = 0;
    while i < ps.len()
        invariant
            i <= ps@.len(),
            forall|k: int| 0 <= k < i ==> (#[trigger] ps@[k])@ != x@,
        decreases ps@.len() - i,
    {
        if str_eq(&ps[i], x) {
            return true;
        }
        i = i + 1;
    }
    false
}

} // verus!
