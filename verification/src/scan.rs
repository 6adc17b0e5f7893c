//! Workspace scanner helpers: binary detection, text classification,
//! language tagging from file extensions, file size limits, and text
//! sampling for reports.

use vstd::prelude::*;
use vstd::utf8::valid_utf8;
use vstd::utf8::decode_utf8;
use vstd::utf8::encode_utf8;
use crate::bytesutil::spec_starts_with;
use crate::bytesutil::bytes_starts_with;
use crate::bytesutil::str_bytes;
use crate::bytesutil::str_chars;
use crate::bytesutil::chars_to_string;
use crate::bytesutil::check_utf8;
use crate::bytesutil::bytes_to_string;
use crate::bytesutil::subvec;

verus! {

broadcast use vstd::utf8::group_utf8_lib;

/// Number of occurrences of `b` in `s`.
pub open spec fn count_eq(s: Seq<u8>, b: u8) -> nat
    decreases s.len()
{
    if s.len() == 0 {
        0
    } else {
        count_eq(s.drop_last(), b) + if s.last() == b {
            1nat
        } else {
            0nat
        }
    }
}

pub proof fn lemma_count_eq_le(s: Seq<u8>, b: u8)
    ensures
        count_eq(s, b) <= s.len(),
    decreases s.len(),
{
    if s.len() > 0 {
        lemma_count_eq_le(s.drop_last(), b);
    }
}

/// Count occurrences of `b` in `v`.
pub fn count_byte(v: &[u8], b: u8) -> (r: usize)
    ensures
        r == count_eq(v@, b),
{
    let ghost s = v@;
    let mut r: usize = 0;
    let mut i: usize = 0;
    while i < v.len()
        invariant
            i <= v@.len(),
            v@ == s,
            r == count_eq(s.subrange(0, i as int), b),
            r <= i,
        decreases v@.len() - i,
    {
        proof {
            let p = s.subrange(0, i + 1);
            assert(p.drop_last() =~= s.subrange(0, i as int));
            assert(count_eq(p, b) == count_eq(s.subrange(0, i as int), b) + if s[i as int] == b {
                1nat
            } else {
                0nat
            });
        }
        if v[i] == b {
            r = r + 1;
        }
        i = i + 1;
    }
    assert(s.subrange(0, i as int) =~= s);
    r
}

/// One of the recognized binary magic prefixes begins the buffer.
pub open spec fn spec_magic_binary(b: Seq<u8>) -> bool {
    b.len() >= 4 && (spec_starts_with(b, encode_utf8("%PDF-"@)) || spec_starts_with(
        b,
        seq![0x50u8, 0x4bu8, 0x03u8, 0x04u8],
    ) || spec_starts_with(b, seq![0x7fu8, 0x45u8, 0x4cu8, 0x46u8]) || spec_starts_with(
        b,
        seq![0x89u8, 0x50u8, 0x4eu8, 0x47u8, 0x0du8, 0x0au8, 0x1au8, 0x0au8],
    ) || spec_starts_with(b, seq![0x4du8, 0x5au8]))
}

/// A buffer is treated as binary when a magic prefix matches, more than a
/// tenth of it is NUL bytes, or it is not valid UTF-8.
pub open spec fn spec_looks_binary(b: Seq<u8>) -> bool {
    ||| spec_magic_binary(b)
    ||| 10 * count_eq(b, 0) > (if b.len() == 0 {
        1int
    } else {
        b.len() as int
    })
    ||| !valid_utf8(b)
}

fn push4(a: u8, b: u8, c: u8, d: u8) -> (r: Vec<u8>)
    ensures
        r@ == seq![a, b, c, d],
{
    let mut v: Vec<u8> = Vec::new();
    v.push(a);
    v.push(b);
    v.push(c);
    v.push(d);
    assert(v@ =~= seq![a, b, c, d]);
    v
}

/// Decide whether a buffer holds binary rather than text.
pub fn looks_binary(buf: &[u8]) -> (r: bool)
    ensures
        r == spec_looks_binary(buf@),
{
    if buf.len() >= 4 {
        let pdf = str_bytes("%PDF-");
        let zip = push4(0x50, 0x4b, 0x03, 0x04);
        let elf = push4(0x7f, 0x45, 0x4c, 0x46);
        let mut png = push4(0x89, 0x50, 0x4e, 0x47);
        png.push(0x0d);
        png.push(0x0a);
        png.push(0x1a);
        png.push(0x0a);
        assert(png@ =~= seq![0x89u8, 0x50u8, 0x4eu8, 0x47u8, 0x0du8, 0x0au8, 0x1au8, 0x0au8]);
        let mut mz: Vec<u8> = Vec::new();
        mz.push(0x4d);
        mz.push(0x5a);
        assert(mz@ =~= seq![0x4du8, 0x5au8]);
        if bytes_starts_with(buf, &pdf) || bytes_starts_with(buf, &zip) || bytes_starts_with(
            buf,
            &elf,
        ) || bytes_starts_with(buf, &png) || bytes_starts_with(buf, &mz) {
            return true;
        }
    }
    let nul = count_byte(buf, 0);
    let denom: usize = if buf.len() == 0 {
        1
    } else {
        buf.len()
    };
    proof {
        lemma_count_eq_le(buf@, 0);
    }
    if (nul as u128) * 10 > (denom as u128) {
        return true;
    }
    !check_utf8(buf)
}

/// The text of a buffer when it is textual: rejected when it looks binary,
/// returned decoded otherwise.
pub fn text_if_textual(buf: &[u8]) -> (r: Option<String>)
    ensures
        r is Some <==> !spec_looks_binary(buf@),
        r is Some ==> r->0@ == decode_utf8(buf@),
{
    if looks_binary(buf) {
        None
    } else {
        let v = subvec(buf, 0, buf.len());
        assert(v@ =~= buf@);
        Some(bytes_to_string(v))
    }
}

/// Files above this size are skipped by the scanner.
pub const MAX_FILE_SIZE: u64 = 5242880;

/// Is a file of `len` bytes small enough to index? The bound is 5 MiB.
pub fn within_size_limit(len: u64) -> (r: bool)
    ensures
        r == (len <= 5242880),
{
    len <= MAX_FILE_SIZE
}

/// Index of the last occurrence of `c` in `s` at or after 0, or -1.
pub open spec fn last_index_of_char(s: Seq<char>, c: char) -> int
    decreases s.len()
{
    if s.len() == 0 {
        -1
    } else if s.last() == c {
        s.len() - 1
    } else {
        last_index_of_char(s.drop_last(), c)
    }
}

proof fn lemma_last_index_of_char(s: Seq<char>, c: char)
    ensures
        last_index_of_char(s, c) == -1 ==> forall|j: int| 0 <= j < s.len() ==> s[j] != c,
        last_index_of_char(s, c) != -1 ==> {
            let r = last_index_of_char(s, c);
            &&& 0 <= r < s.len()
            &&& s[r] == c
            &&& forall|j: int| r < j < s.len() ==> s[j] != c
        },
    decreases s.len(),
{
    if s.len() > 0 && s.last() != c {
        lemma_last_index_of_char(s.drop_last(), c);
        assert(forall|j: int| 0 <= j < s.len() - 1 ==> s.drop_last()[j] == s[j]);
    }
}

/// Last occurrence of `c` in `v`.
fn rfind_char(v: &[char], c: char) -> (r: Option<usize>)
    ensures
        r is Some ==> 0 <= r->0 < v@.len() && last_index_of_char(v@, c) == r->0,
        r is None ==> last_index_of_char(v@, c) == -1,
{
    let ghost s = v@;
    let mut i: usize = v.len();
    while i > 0
        invariant
            i <= v@.len(),
            v@ == s,
            forall|j: int| i <= j < s.len() ==> s[j] != c,
        decreases i,
    {
        i = i - 1;
        if v[i] == c {
            proof {
                lemma_last_index_of_char(s, c);
                if last_index_of_char(s, c) < i {
                    assert(s[i as int] == c);
                    assert(false);
                }
                if last_index_of_char(s, c) > i {
                    let r = last_index_of_char(s, c);
                    assert(s[r] != c);
                    assert(false);
                }
            }
            return Some(i);
        }
    }
    proof {
        lemma_last_index_of_char(s, c);
        if last_index_of_char(s, c) != -1 {
            let r = last_index_of_char(s, c);
            assert(s[r] == c);
            assert(false);
        }
    }
    None
}

/// The extension of a path: what follows the last `.` of the last path
/// component, absent when that component has no `.` past its first
/// character.
pub open spec fn spec_extension_of(p: Seq<char>) -> Seq<char> {
    let name_start = last_index_of_char(p, '/') + 1;
    let name = p.subrange(name_start, p.len() as int);
    let d = last_index_of_char(name, '.');
    if d <= 0 {
        Seq::empty()
    } else {
        name.subrange(d + 1, name.len() as int)
    }
}

/// The language tag for a path, from its extension.
pub open spec fn spec_language_for(p: Seq<char>) -> Seq<char> {
    let e = spec_extension_of(p);
    if e =~= seq!['r', 's'] {
        seq!['r', 'u', 's', 't']
    } else if e =~= seq!['t', 's'] || e =~= seq!['t', 's', 'x'] {
        seq!['t', 'y', 'p', 'e', 's', 'c', 'r', 'i', 'p', 't']
    } else if e =~= seq!['j', 's'] || e =~= seq!['j', 's', 'x'] {
        seq!['j', 'a', 'v', 'a', 's', 'c', 'r', 'i', 'p', 't']
    } else if e =~= seq!['p', 'y'] {
        seq!['p', 'y', 't', 'h', 'o', 'n']
    } else {
        seq!['t', 'e', 'x', 't']
    }
}

/// Map a relative path to its language tag: `rust`, `typescript`,
/// `javascript`, `python`, or the `text` fallback.
pub fn language_for(path: &str) -> (r: String)
    ensures
        r@ == spec_language_for(path@),
{
    let cs = str_chars(path);
    let n = cs.len();
    let name_start: usize = match rfind_char(&cs, '/') {
        Some(i) => {
            assert(i < n);
            i + 1
        },
        None => 0,
    };
    let name = {
        let mut name: Vec<char> = Vec::new();
        let mut i: usize = name_start;
        while i < cs.len()
            invariant
                name_start <= i <= cs@.len(),
                name@ == cs@.subrange(name_start as int, i as int),
            decreases cs@.len() - i,
        {
            name.push(cs[i]);
            assert(name@ =~= cs@.subrange(name_start as int, i + 1));
            i = i + 1;
        }
        name
    };
    assert(name@ =~= cs@.subrange(name_start as int, cs@.len() as int));
    let ext = match rfind_char(&name, '.') {
        Some(d) => if d > 0 {
            subchars_pub(&name, d + 1, name.len())
        } else {
            Vec::new()
        },
        None => Vec::new(),
    };
    assert(ext@ =~= spec_extension_of(cs@));
    let e = &ext;
    let is_rs = e.len() == 2 && e[0] == 'r' && e[1] == 's';
    let is_ts = (e.len() == 2 && e[0] == 't' && e[1] == 's') || (e.len() == 3 && e[0] == 't'
        && e[1] == 's' && e[2] == 'x');
    let is_js = (e.len() == 2 && e[0] == 'j' && e[1] == 's') || (e.len() == 3 && e[0] == 'j'
        && e[1] == 's' && e[2] == 'x');
    let is_py = e.len() == 2 && e[0] == 'p' && e[1] == 'y';
    proof {
        assert(is_rs == (ext@ == seq!['r', 's'])) by {
            if ext@ == seq!['r', 's'] {
                assert(ext@.len() == 2 && ext@[0] == 'r' && ext@[1] == 's');
            }
            if is_rs {
                assert(ext@ =~= seq!['r', 's']);
            }
        }
        assert(is_ts == (ext@ == seq!['t', 's'] || ext@ == seq!['t', 's', 'x'])) by {
            if ext@ == seq!['t', 's'] {
                assert(ext@.len() == 2 && ext@[0] == 't' && ext@[1] == 's');
            }
            if ext@ == seq!['t', 's', 'x'] {
                assert(ext@.len() == 3 && ext@[0] == 't' && ext@[1] == 's' && ext@[2] == 'x');
            }
            if e@.len() == 2 && e@[0] == 't' && e@[1] == 's' {
                assert(ext@ =~= seq!['t', 's']);
            }
            if e@.len() == 3 && e@[0] == 't' && e@[1] == 's' && e@[2] == 'x' {
                assert(ext@ =~= seq!['t', 's', 'x']);
            }
        }
        assert(is_js == (ext@ == seq!['j', 's'] || ext@ == seq!['j', 's', 'x'])) by {
            if ext@ == seq!['j', 's'] {
                assert(ext@.len() == 2 && ext@[0] == 'j' && ext@[1] == 's');
            }
            if ext@ == seq!['j', 's', 'x'] {
                assert(ext@.len() == 3 && ext@[0] == 'j' && ext@[1] == 's' && ext@[2] == 'x');
            }
            if e@.len() == 2 && e@[0] == 'j' && e@[1] == 's' {
                assert(ext@ =~= seq!['j', 's']);
            }
            if e@.len() == 3 && e@[0] == 'j' && e@[1] == 's' && e@[2] == 'x' {
                assert(ext@ =~= seq!['j', 's', 'x']);
            }
        }
        assert(is_py == (ext@ == seq!['p', 'y'])) by {
            if ext@ == seq!['p', 'y'] {
                assert(ext@.len() == 2 && ext@[0] == 'p' && ext@[1] == 'y');
            }
            if is_py {
                assert(ext@ =~= seq!['p', 'y']);
            }
        }
    }
    let mut tag: Vec<char> = Vec::new();
    if is_rs {
        tag.push('r');
        tag.push('u');
        tag.push('s');
        tag.push('t');
        assert(tag@ =~= seq!['r', 'u', 's', 't']);
    } else if is_ts {
        tag.push('t');
        tag.push('y');
        tag.push('p');
        tag.push('e');
        tag.push('s');
        tag.push('c');
        tag.push('r');
        tag.push('i');
        tag.push('p');
        tag.push('t');
        assert(tag@ =~= seq!['t', 'y', 'p', 'e', 's', 'c', 'r', 'i', 'p', 't']);
    } else if is_js {
        tag.push('j');
        tag.push('a');
        tag.push('v');
        tag.push('a');
        tag.push('s');
        tag.push('c');
        tag.push('r');
        tag.push('i');
        tag.push('p');
        tag.push('t');
        assert(tag@ =~= seq!['j', 'a', 'v', 'a', 's', 'c', 'r', 'i', 'p', 't']);
    } else if is_py {
        tag.push('p');
        tag.push('y');
        tag.push('t');
        tag.push('h');
        tag.push('o');
        tag.push('n');
        assert(tag@ =~= seq!['p', 'y', 't', 'h', 'o', 'n']);
    } else {
        tag.push('t');
        tag.push('e');
        tag.push('x');
        tag.push('t');
        assert(tag@ =~= seq!['t', 'e', 'x', 't']);
    }
    chars_to_string(&tag)
}

/// Copy of `v[start..end]`.
pub fn subchars_pub(v: &[char], start: usize, end: usize) -> (r: Vec<char>)
    requires
        start <= end <= v@.len(),
    ensures
        r@ == v@.subrange(start as int, end as int),
{
    let mut r: Vec<char> = Vec::new();
    let mut i: usize = start;
    while i < end
        invariant
            start <= i <= end <= v@.len(),
            r@ == v@.subrange(start as int, i as int),
        decreases end - i,
    {
        r.push(v[i]);
        assert(r@ =~= v@.subrange(start as int, i + 1));
        i = i + 1;
    }
    r
}

} // verus!
