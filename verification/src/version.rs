//! Release version handling: parsing `maj.min.pat` versions with an
//! optional downstream `apc.<n>` tiebreaker, comparing them, and
//! normalizing release tag names.

use vstd::prelude::*;
use vstd::utf8::encode_utf8;
use vstd::string::StrSliceExecFns;
use crate::bytesutil::trim_ascii;
use crate::bytesutil::trim_bytes;
use crate::bytesutil::first_index_from;
use crate::bytesutil::find_byte_from;
use crate::bytesutil::digit_run_from;
use crate::bytesutil::lemma_digit_run_from_bound;
use crate::bytesutil::is_ascii_digit_byte;
use crate::bytesutil::ascii_digit_byte;
use crate::bytesutil::spec_parse_u64;
use crate::bytesutil::parse_u64_bytes;
use crate::bytesutil::subvec;
use crate::bytesutil::str_bytes;

verus! {

/// A parsed version: `maj.min.pat`, and an optional downstream patch
/// number taken from an `apc.<n>` suffix, used only as a tiebreaker.
#[derive(Debug, Clone, Copy, PartialEq, Eq, PartialOrd, Ord)]
pub struct ParsedVersion {
    pub maj: u64,
    pub min: u64,
    pub pat: u64,
    pub variant_num: Option<u64>,
}

/// Strict order on parsed versions: lexicographic on
/// `(maj, min, pat, variant_num)`, where a missing variant number sorts
/// before any present one. This agrees with the derived `Ord`.
pub open spec fn spec_version_lt(a: ParsedVersion, b: ParsedVersion) -> bool {
    ||| a.maj < b.maj
    ||| (a.maj == b.maj && a.min < b.min)
    ||| (a.maj == b.maj && a.min == b.min && a.pat < b.pat)
    ||| (a.maj == b.maj && a.min == b.min && a.pat == b.pat && {
        ||| (a.variant_num is None && b.variant_num is Some)
        ||| (a.variant_num is Some && b.variant_num is Some && a.variant_num->0 < b.variant_num->0)
    })
}

/// Split at the first occurrence of `b`: the part before it, and, when it
/// occurs, the part after it.
pub open spec fn spec_split_at_byte(s: Seq<u8>, b: u8) -> (Seq<u8>, Option<Seq<u8>>) {
    let i = first_index_from(s, 0, b);
    if i < 0 {
        (s, None)
    } else {
        (s.subrange(0, i), Some(s.subrange(i + 1, s.len() as int)))
    }
}

/// Does `s` begin with `apc.`?
pub open spec fn spec_has_apc_prefix(s: Seq<u8>) -> bool {
    s.len() >= 4 && s[0] == 0x61 && s[1] == 0x70 && s[2] == 0x63 && s[3] == 0x2e
}

/// The version denoted by a string: trim ASCII whitespace, split a suffix
/// at the first `-`, read `maj.min.pat` from the first three `.`-separated
/// fields, and accept a suffix only in the form `apc.<digits...>`, whose
/// leading digit run (when it parses) becomes the variant number.
pub open spec fn spec_parse_version(s: Seq<u8>) -> Option<ParsedVersion> {
    let t = trim_ascii(s);
    let (core, suffix) = spec_split_at_byte(t, 0x2d);
    let (p1, r1) = spec_split_at_byte(core, 0x2e);
    if r1 is None {
        None
    } else {
        let (p2, r2) = spec_split_at_byte(r1->0, 0x2e);
        if r2 is None {
            None
        } else {
            let (p3, _rest) = spec_split_at_byte(r2->0, 0x2e);
            if spec_parse_u64(p1) is None || spec_parse_u64(p2) is None || spec_parse_u64(p3)
                is None {
                None
            } else {
                let maj = spec_parse_u64(p1)->0;
                let min = spec_parse_u64(p2)->0;
                let pat = spec_parse_u64(p3)->0;
                match suffix {
                    None => Some(ParsedVersion { maj, min, pat, variant_num: None }),
                    Some(sf) => if spec_has_apc_prefix(sf) {
                        let rest = sf.subrange(4, sf.len() as int);
                        let dp = rest.subrange(0, digit_run_from(rest, 0) as int);
                        Some(ParsedVersion { maj, min, pat, variant_num: spec_parse_u64(dp) })
                    } else {
                        None
                    },
                }
            }
        }
    }
}

/// Split a byte vector at the first occurrence of `b`.
fn split_at_byte(v: &[u8], b: u8) -> (r: (Vec<u8>, Option<Vec<u8>>))
    ensures
        ({
            let (sp, sr) = spec_split_at_byte(v@, b);
            &&& r.0@ == sp
            &&& (r.1 is Some <==> sr is Some)
            &&& (r.1 is Some ==> r.1->0@ == sr->0)
        }),
{
    proof {
        crate::bytesutil::lemma_first_index_from(v@, 0, b);
    }
    let n = v.len();
    match find_byte_from(v, 0, b) {
        None => (subvec(v, 0, n), None),
        Some(i) => {
            assert(i < n);
            (subvec(v, 0, i), Some(subvec(v, i + 1, n)))
        },
    }
}

/// Parse a version string. Mirrors `u64::from_str` on each numeric field
/// and trims ASCII whitespace.
pub fn parse_version(v: &str) -> (r: Option<ParsedVersion>)
    ensures
        r == spec_parse_version(encode_utf8(v@)),
{
    let bytes = str_bytes(v);
    let t = trim_bytes(&bytes);
    let (core, suffix) = split_at_byte(&t, 0x2d);
    let (p1, r1) = split_at_byte(&core, 0x2e);
    let r1 = match r1 {
        None => {
            return None;
        },
        Some(r1) => r1,
    };
    let (p2, r2) = split_at_byte(&r1, 0x2e);
    let r2 = match r2 {
        None => {
            return None;
        },
        Some(r2) => r2,
    };
    let (p3, _rest) = split_at_byte(&r2, 0x2e);
    let maj = match parse_u64_bytes(&p1) {
        None => {
            return None;
        },
        Some(x) => x,
    };
    let min = match parse_u64_bytes(&p2) {
        None => {
            return None;
        },
        Some(x) => x,
    };
    let pat = match parse_u64_bytes(&p3) {
        None => {
            return None;
        },
        Some(x) => x,
    };
    match suffix {
        None => Some(ParsedVersion { maj, min, pat, variant_num: None }),
        Some(sf) => {
            if sf.len() >= 4 && sf[0] == 0x61 && sf[1] == 0x70 && sf[2] == 0x63 && sf[3] == 0x2e {
                let ghost rest_s = sf@.subrange(4, sf@.len() as int);
                let mut j: usize = 4;
                while j < sf.len() && ascii_digit_byte(sf[j])
                    invariant
                        4 <= j <= sf@.len(),
                        rest_s == sf@.subrange(4, sf@.len() as int),
                        digit_run_from(rest_s, 0) == (j - 4) + digit_run_from(rest_s, j - 4),
                    decreases sf@.len() - j,
                {
                    proof {
                        assert(rest_s[j - 4] == sf@[j as int]);
                        assert(digit_run_from(rest_s, j - 4) == 1 + digit_run_from(
                            rest_s,
                            j - 4 + 1,
                        ));
                    }
                    j = j + 1;
                }
                proof {
                    if j < sf@.len() {
                        assert(rest_s[j - 4] == sf@[j as int]);
                    }
                    assert(digit_run_from(rest_s, j - 4) == 0);
                    assert(digit_run_from(rest_s, 0) == j - 4);
                }
                let dp = subvec(&sf, 4, j);
                assert(dp@ =~= rest_s.subrange(0, digit_run_from(rest_s, 0) as int));
                let vn = parse_u64_bytes(&dp);
                Some(ParsedVersion { maj, min, pat, variant_num: vn })
            } else {
                None
            }
        },
    }
}

/// Compare two version strings: `Some(true)` exactly when both parse and
/// `latest` is strictly newer than `current`.
pub fn is_newer(latest: &str, current: &str) -> (r: Option<bool>)
    ensures
        ({
            let l = spec_parse_version(encode_utf8(latest@));
            let c = spec_parse_version(encode_utf8(current@));
            match (l, c) {
                (Some(lv), Some(cv)) => r == Some(spec_version_lt(cv, lv)),
                _ => r is None,
            }
        }),
{
    let l = parse_version(latest);
    let c = parse_version(current);
    match (l, c) {
        (Some(lv), Some(cv)) => {
            let newer = if cv.maj != lv.maj {
                cv.maj < lv.maj
            } else if cv.min != lv.min {
                cv.min < lv.min
            } else if cv.pat != lv.pat {
                cv.pat < lv.pat
            } else {
                match (cv.variant_num, lv.variant_num) {
                    (None, Some(_)) => true,
                    (Some(a), Some(b)) => a < b,
                    _ => false,
                }
            };
            Some(newer)
        },
        _ => None,
    }
}

/// A normalized tag name: the version part of tags such as
/// `rust-v0.39.0`, `v0.39.0` or a bare `0.39.0-apc.1`.
pub open spec fn spec_normalize_tag(t: Seq<char>) -> Option<Seq<char>> {
    if t.len() >= 6 && t[0] == 'r' && t[1] == 'u' && t[2] == 's' && t[3] == 't' && t[4] == '-'
        && t[5] == 'v' {
        Some(t.subrange(6, t.len() as int))
    } else if t.len() >= 1 && t[0] == 'v' {
        Some(t.subrange(1, t.len() as int))
    } else if t.len() >= 1 && '0' <= t[0] <= '9' {
        Some(t)
    } else {
        None
    }
}

/// Strip a `rust-v` or `v` tag prefix, or accept a tag that already
/// starts with a digit.
pub fn normalize_tag_name(tag: &str) -> (r: Option<&str>)
    ensures
        match (r, spec_normalize_tag(tag@)) {
            (Some(s), Some(t)) => s@ == t,
            (None, None) => true,
            _ => false,
        },
{
    let n = tag.unicode_len();
    if n >= 6 && tag.get_char(0) == 'r' && tag.get_char(1) == 'u' && tag.get_char(2) == 's'
        && tag.get_char(3) == 't' && tag.get_char(4) == '-' && tag.get_char(5) == 'v' {
        Some(tag.substring_char(6, n))
    } else if n >= 1 && tag.get_char(0) == 'v' {
        Some(tag.substring_char(1, n))
    } else if n >= 1 && '0' <= tag.get_char(0) && tag.get_char(0) <= '9' {
        proof {
            assert(tag@.subrange(0, tag@.len() as int) =~= tag@);
        }
        Some(tag.substring_char(0, n))
    } else {
        None
    }
}

} // verus!
