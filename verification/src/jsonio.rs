//! JSON primitives for the index's on-disk files: string escaping and
//! unescaping at the byte level, literal matching, and number fields.
//! The writers emit exactly this shape and the parsers accept exactly it.

use vstd::prelude::*;
use crate::bytesutil::subvec;
use crate::bytesutil::is_ascii_digit_byte;
use crate::bytesutil::ascii_digit_byte;
use crate::bytesutil::digit_run_from;
use crate::bytesutil::lemma_digit_run_from_bound;
use crate::bytesutil::dec_value;
use crate::bytesutil::all_digits;
use crate::bytesutil::dec_bytes;
use crate::bytesutil::spec_starts_with;
use crate::bytesutil::bytes_starts_with;

verus! {

/// The JSON escape of one byte, lowercase `\u00..` for bare controls.
pub open spec fn esc_json_byte(b: u8) -> Seq<u8> {
    if b == 0x22 {
        seq![0x5cu8, 0x22u8]
    } else if b == 0x5c {
        seq![0x5cu8, 0x5cu8]
    } else if b == 0x08 {
        seq![0x5cu8, 0x62u8]
    } else if b == 0x09 {
        seq![0x5cu8, 0x74u8]
    } else if b == 0x0a {
        seq![0x5cu8, 0x6eu8]
    } else if b == 0x0c {
        seq![0x5cu8, 0x66u8]
    } else if b == 0x0d {
        seq![0x5cu8, 0x72u8]
    } else if b < 0x20 {
        seq![0x5cu8, 0x75u8, 0x30u8, 0x30u8, hex_digit_byte(b as int / 16), hex_digit_byte(
            b as int % 16,
        )]
    } else {
        seq![b]
    }
}

/// The lowercase hex digit byte for a value below 16.
pub open spec fn hex_digit_byte(n: int) -> u8 {
    if n < 10 {
        (0x30 + n) as u8
    } else {
        (0x61 + (n - 10)) as u8
    }
}

/// The value of a hex digit byte, or -1.
pub open spec fn hex_digit_value(b: u8) -> int {
    if 0x30 <= b <= 0x39 {
        b - 0x30
    } else if 0x61 <= b <= 0x66 {
        b - 0x61 + 10
    } else {
        -1
    }
}

/// The JSON escape of a byte string.
pub open spec fn esc_json(s: Seq<u8>) -> Seq<u8>
    decreases s.len()
{
    if s.len() == 0 {
        Seq::empty()
    } else {
        esc_json_byte(s[0]) + esc_json(s.drop_first())
    }
}

/// Escape a byte string for a JSON string literal.
pub fn escape_json_bytes(v: &[u8]) -> (r: Vec<u8>)
    ensures
        r@ == esc_json(v@),
{
    let ghost s = v@;
    let mut r: Vec<u8> = Vec::new();
    assert(s.subrange(0, s.len() as int) =~= s);
    let mut i: usize = 0;
    while i < v.len()
        invariant
            i <= v@.len(),
            v@ == s,
            esc_json(s) == r@ + esc_json(s.subrange(i as int, s.len() as int)),
        decreases v@.len() - i,
    {
        let ghost suf = s.subrange(i as int, s.len() as int);
        proof {
            assert(suf.drop_first() =~= s.subrange(i as int + 1, s.len() as int));
            assert(esc_json(suf) == esc_json_byte(s[i as int]) + esc_json(
                s.subrange(i as int + 1, s.len() as int),
            ));
        }
        let b = v[i];
        let ghost before = r@;
        if b == 0x22 {
            r.push(0x5c);
            r.push(0x22);
        } else if b == 0x5c {
            r.push(0x5c);
            r.push(0x5c);
        } else if b == 0x08 {
            r.push(0x5c);
            r.push(0x62);
        } else if b == 0x09 {
            r.push(0x5c);
            r.push(0x74);
        } else if b == 0x0a {
            r.push(0x5c);
            r.push(0x6e);
        } else if b == 0x0c {
            r.push(0x5c);
            r.push(0x66);
        } else if b == 0x0d {
            r.push(0x5c);
            r.push(0x72);
        } else if b < 0x20 {
            r.push(0x5c);
            r.push(0x75);
            r.push(0x30);
            r.push(0x30);
            r.push(if b / 16 < 10 {
                0x30 + b / 16
            } else {
                0x61 + (b / 16 - 10)
            });
            r.push(if b % 16 < 10 {
                0x30 + b % 16
            } else {
                0x61 + (b % 16 - 10)
            });
        } else {
            r.push(b);
        }
        proof {
            assert(r@ =~= before + esc_json_byte(b));
            assert(r@ + esc_json(s.subrange(i as int + 1, s.len() as int)) =~= before + esc_json(
                suf,
            ));
        }
        i = i + 1;
    }
    proof {
        assert(s.subrange(i as int, s.len() as int) =~= Seq::<u8>::empty());
        assert(r@ + esc_json(Seq::<u8>::empty()) =~= r@);
    }
    r
}

/// Read an escaped JSON string up to its closing quote: the unescaped
/// content and the remainder after the quote, or nothing when malformed.
pub open spec fn spec_unescape(b: Seq<u8>) -> Option<(Seq<u8>, Seq<u8>)>
    decreases b.len()
{
    if b.len() == 0 {
        None
    } else if b[0] == 0x22 {
        Some((Seq::empty(), b.drop_first()))
    } else if b[0] == 0x5c {
        if b.len() < 2 {
            None
        } else {
            let e = b[1];
            if e == 0x75 {
                if b.len() >= 6 && b[2] == 0x30 && b[3] == 0x30 && hex_digit_value(b[4]) >= 0
                    && hex_digit_value(b[5]) >= 0 {
                    let c = (hex_digit_value(b[4]) * 16 + hex_digit_value(b[5])) as u8;
                    match spec_unescape(b.subrange(6, b.len() as int)) {
                        None => None,
                        Some(p) => Some((seq![c] + p.0, p.1)),
                    }
                } else {
                    None
                }
            } else {
                let c: int = if e == 0x22 {
                    0x22
                } else if e == 0x5c {
                    0x5c
                } else if e == 0x62 {
                    0x08
                } else if e == 0x74 {
                    0x09
                } else if e == 0x6e {
                    0x0a
                } else if e == 0x66 {
                    0x0c
                } else if e == 0x72 {
                    0x0d
                } else {
                    -1
                };
                if c < 0 {
                    None
                } else {
                    match spec_unescape(b.subrange(2, b.len() as int)) {
                        None => None,
                        Some(p) => Some((seq![c as u8] + p.0, p.1)),
                    }
                }
            }
        }
    } else {
        match spec_unescape(b.drop_first()) {
            None => None,
            Some(p) => Some((seq![b[0]] + p.0, p.1)),
        }
    }
}

/// The value of a hex digit byte, when it is one.
fn hex_val(b: u8) -> (r: Option<u8>)
    ensures
        r is Some ==> hex_digit_value(b) == r->0 && r->0 < 16,
        r is None ==> hex_digit_value(b) < 0,
{
    if 0x30 <= b && b <= 0x39 {
        Some(b - 0x30)
    } else if 0x61 <= b && b <= 0x66 {
        Some(b - 0x61 + 10)
    } else {
        None
    }
}

/// Parse a JSON string body beginning at `from` (just after the opening
/// quote): its unescaped bytes and the index after the closing quote.
pub fn parse_json_string(v: &[u8], from: usize) -> (r: Option<(Vec<u8>, usize)>)
    requires
        from <= v@.len(),
    ensures
        ({
            let sp = spec_unescape(v@.subrange(from as int, v@.len() as int));
            match (r, sp) {
                (Some(p), Some(q)) => {
                    &&& p.0@ == q.0
                    &&& from < p.1 <= v@.len()
                    &&& v@.subrange(p.1 as int, v@.len() as int) == q.1
                },
                (None, None) => true,
                _ => false,
            }
        }),
    decreases v@.len() - from,
{
    let ghost suf = v@.subrange(from as int, v@.len() as int);
    let n = v.len();
    if from >= n {
        return None;
    }
    let b0 = v[from];
    proof {
        assert(suf[0] == v@[from as int]);
        assert(suf.drop_first() =~= v@.subrange(from as int + 1, v@.len() as int));
    }
    if b0 == 0x22 {
        return Some((Vec::new(), from + 1));
    }
    if b0 == 0x5c {
        if from + 1 >= n {
            assert(suf.len() < 2);
            return None;
        }
        let e = v[from + 1];
        proof {
            assert(suf[1] == v@[from as int + 1]);
        }
        if e == 0x75 {
            if n - from >= 6 && v[from + 2] == 0x30 && v[from + 3] == 0x30 {
                proof {
                    assert(suf[2] == v@[from as int + 2]);
                    assert(suf[3] == v@[from as int + 3]);
                    assert(suf[4] == v@[from as int + 4]);
                    assert(suf[5] == v@[from as int + 5]);
                    assert(suf.subrange(6, suf.len() as int) =~= v@.subrange(
                        from as int + 6,
                        v@.len() as int,
                    ));
                }
                match (hex_val(v[from + 4]), hex_val(v[from + 5])) {
                    (Some(a), Some(c)) => {
                        let byte: u8 = a * 16 + c;
                        match parse_json_string(v, from + 6) {
                            None => None,
                            Some((rest, j)) => {
                                let mut out: Vec<u8> = Vec::new();
                                out.push(byte);
                                let mut rest = rest;
                                out.append(&mut rest);
                                Some((out, j))
                            },
                        }
                    },
                    _ => None,
                }
            } else {
                proof {
                    if suf.len() >= 6 {
                        assert(suf[2] == v@[from as int + 2]);
                        assert(suf[3] == v@[from as int + 3]);
                    }
                }
                None
            }
        } else {
            let c: Option<u8> = if e == 0x22 {
                Some(0x22)
            } else if e == 0x5c {
                Some(0x5c)
            } else if e == 0x62 {
                Some(0x08)
            } else if e == 0x74 {
                Some(0x09)
            } else if e == 0x6e {
                Some(0x0a)
            } else if e == 0x66 {
                Some(0x0c)
            } else if e == 0x72 {
                Some(0x0d)
            } else {
                None
            };
            match c {
                None => None,
                Some(cb) => {
                    proof {
                        assert(suf.subrange(2, suf.len() as int) =~= v@.subrange(
                            from as int + 2,
                            v@.len() as int,
                        ));
                    }
                    match parse_json_string(v, from + 2) {
                        None => None,
                        Some((rest, j)) => {
                            let mut out: Vec<u8> = Vec::new();
                            out.push(cb);
                            let mut rest = rest;
                            out.append(&mut rest);
                            Some((out, j))
                        },
                    }
                },
            }
        }
    } else {
        match parse_json_string(v, from + 1) {
            None => None,
            Some((rest, j)) => {
                let mut out: Vec<u8> = Vec::new();
                out.push(b0);
                let mut rest = rest;
                out.append(&mut rest);
                Some((out, j))
            },
        }
    }
}

/// Does the literal stand at `from`? When it does, the index after it.
pub fn expect_lit(v: &[u8], from: usize, lit: &str) -> (r: Option<usize>)
    requires
        from <= v@.len(),
    ensures
        ({
            let suf = v@.subrange(from as int, v@.len() as int);
            let lb = vstd::utf8::encode_utf8(lit@);
            match r {
                Some(j) => spec_starts_with(suf, lb) && j == from + lb.len() && from <= j
                    <= v@.len(),
                None => !spec_starts_with(suf, lb),
            }
        }),
{
    let lb = crate::bytesutil::str_bytes(lit);
    let tail = subvec(v, from, v.len());
    if bytes_starts_with(&tail, &lb) {
        Some(from + lb.len())
    } else {
        None
    }
}

/// The decimal number beginning at offset 0 of `s`: its value and the
/// length of its digit run, absent when there is none or it overflows.
pub open spec fn spec_parse_u64_at(s: Seq<u8>) -> Option<(u64, int)> {
    let d = digit_run_from(s, 0) as int;
    let dp = s.subrange(0, d);
    if d >= 1 && dec_value(dp) <= u64::MAX {
        Some((dec_value(dp) as u64, d))
    } else {
        None
    }
}

/// Parse the decimal number at `from`: its value and the index after it.
pub fn parse_u64_at(v: &[u8], from: usize) -> (r: Option<(u64, usize)>)
    requires
        from <= v@.len(),
    ensures
        ({
            let sp = spec_parse_u64_at(v@.subrange(from as int, v@.len() as int));
            match (r, sp) {
                (Some(p), Some(q)) => p.0 == q.0 && p.1 == from + q.1 && from < p.1 <= v@.len(),
                (None, None) => true,
                _ => false,
            }
        }),
{
    let ghost s = v@;
    let ghost suf = s.subrange(from as int, s.len() as int);
    let mut i: usize = from;
    let mut acc: u64 = 0;
    let mut overflow: bool = false;
    while i < v.len() && ascii_digit_byte(v[i])
        invariant
            from <= i <= s.len(),
            v@ == s,
            suf == s.subrange(from as int, s.len() as int),
            digit_run_from(suf, 0) == (i - from) + digit_run_from(suf, i - from),
            all_digits(suf.subrange(0, i - from)),
            !overflow ==> acc == dec_value(suf.subrange(0, i - from)),
            overflow ==> dec_value(suf.subrange(0, i - from)) > u64::MAX,
        decreases s.len() - i,
    {
        let b = v[i];
        proof {
            assert(suf[i - from] == s[i as int]);
            assert(digit_run_from(suf, i - from) == 1 + digit_run_from(suf, i - from + 1));
            let pre = suf.subrange(0, i - from);
            let pre1 = suf.subrange(0, i - from + 1);
            assert(pre1.drop_last() =~= pre);
            assert(pre1.last() == b);
            assert(dec_value(pre1) == dec_value(pre) * 10 + (b - 0x30));
            if !overflow && acc > (u64::MAX - (b - 0x30) as u64) / 10 {
                assert(acc * 10 + (b - 0x30) > u64::MAX) by (nonlinear_arith)
                    requires
                        acc > (u64::MAX - (b - 0x30) as u64) / 10,
                        0x30 <= b <= 0x39,
                ;
            }
            if overflow {
                crate::bytesutil::lemma_dec_value_nonneg(pre);
                assert(dec_value(pre1) >= dec_value(pre) * 10) by (nonlinear_arith)
                    requires
                        0x30 <= b <= 0x39,
                        dec_value(pre1) == dec_value(pre) * 10 + (b - 0x30),
                ;
                assert(dec_value(pre) * 10 >= dec_value(pre)) by (nonlinear_arith)
                    requires
                        dec_value(pre) >= 0,
                ;
            }
        }
        let dig: u64 = (b - 0x30) as u64;
        if !overflow {
            if acc > (u64::MAX - dig) / 10 {
                overflow = true;
            } else {
                assert(acc * 10 + dig <= u64::MAX) by (nonlinear_arith)
                    requires
                        acc <= (u64::MAX - dig) / 10,
                        dig <= 9,
                ;
                acc = acc * 10 + dig;
            }
        }
        i = i + 1;
    }
    proof {
        if i < s.len() {
            assert(suf[i - from] == s[i as int]);
        }
        assert(digit_run_from(suf, i - from) == 0);
        assert(digit_run_from(suf, 0) == i - from);
    }
    if i == from {
        return None;
    }
    if overflow {
        return None;
    }
    Some((acc, i))
}

// ---------------------------------------------------------------------------
// Round-trip facts
// ---------------------------------------------------------------------------

/// Unescaping inverts escaping: an escaped string followed by its closing
/// quote and any tail reads back as the unescaped content and the tail.
pub proof fn lemma_escape_unescape(s: Seq<u8>, tail: Seq<u8>)
    ensures
        spec_unescape(esc_json(s) + seq![0x22u8] + tail) == Some((s, tail)),
    decreases s.len(),
{
    let b = esc_json(s) + seq![0x22u8] + tail;
    if s.len() == 0 {
        assert(esc_json(s) =~= Seq::<u8>::empty());
        assert(b =~= seq![0x22u8] + tail);
        assert(b[0] == 0x22);
        assert(b.drop_first() =~= tail);
    } else {
        let c = s[0];
        let eb = esc_json_byte(c);
        let s1 = s.drop_first();
        assert(esc_json(s) == eb + esc_json(s1));
        lemma_escape_unescape(s1, tail);
        let rest = esc_json(s1) + seq![0x22u8] + tail;
        assert(b =~= eb + rest);
        assert(seq![c] + s1 =~= s);
        if c == 0x22 || c == 0x5c || c == 0x08 || c == 0x09 || c == 0x0a || c == 0x0c
            || c == 0x0d {
            assert(eb.len() == 2);
            assert(b[0] == 0x5c);
            assert(b[1] == eb[1]);
            assert(b.subrange(2, b.len() as int) =~= rest);
            assert(spec_unescape(b) == Some((seq![c] + s1, tail)));
        } else if c < 0x20 {
            assert(eb.len() == 6);
            assert(b[0] == 0x5c && b[1] == 0x75 && b[2] == 0x30 && b[3] == 0x30);
            assert(b[4] == hex_digit_byte(c as int / 16));
            assert(b[5] == hex_digit_byte(c as int % 16));
            assert(hex_digit_value(hex_digit_byte(c as int / 16)) == c as int / 16);
            assert(hex_digit_value(hex_digit_byte(c as int % 16)) == c as int % 16);
            assert(b.subrange(6, b.len() as int) =~= rest);
            assert((hex_digit_value(b[4]) * 16 + hex_digit_value(b[5])) as u8 == c);
            assert(spec_unescape(b) == Some((seq![c] + s1, tail)));
        } else {
            assert(eb =~= seq![c]);
            assert(b[0] == c);
            assert(b.drop_first() =~= rest);
            assert(spec_unescape(b) == Some((seq![c] + s1, tail)));
        }
    }
}

/// The decimal rendering of a number is all digits and denotes it.
pub proof fn lemma_dec_bytes(n: nat)
    ensures
        all_digits(dec_bytes(n)),
        dec_bytes(n).len() >= 1,
        dec_value(dec_bytes(n)) == n,
    decreases n,
{
    if n < 10 {
        assert(dec_bytes(n) =~= seq![(0x30 + n) as u8]);
        assert(dec_bytes(n).drop_last() =~= Seq::<u8>::empty());
        assert((0x30 + n) as u8 == 0x30 + n);
        assert(dec_value(Seq::<u8>::empty()) == 0);
        assert(dec_value(dec_bytes(n)) == dec_value(dec_bytes(n).drop_last()) * 10 + (dec_bytes(
            n,
        ).last() - 0x30));
    } else {
        lemma_dec_bytes(n / 10);
        let d = dec_bytes(n);
        assert(d == dec_bytes(n / 10).push((0x30 + n % 10) as u8));
        assert(d.drop_last() =~= dec_bytes(n / 10));
        assert(d.last() == (0x30 + n % 10) as u8);
        assert((0x30 + n % 10) as u8 == 0x30 + n % 10);
        assert(dec_value(d) == dec_value(dec_bytes(n / 10)) * 10 + (n % 10));
        assert(dec_value(d) == (n / 10) * 10 + (n % 10));
        assert(n == (n / 10) * 10 + (n % 10));
        assert(forall|j: int|
            0 <= j < d.len() - 1 ==> #[trigger] d[j] == dec_bytes(n / 10)[j]);
        assert(all_digits(d));
    }
}

/// A run of `k` digits at `i` followed by a non-digit (or the end) has
/// digit run exactly `k`.
pub proof fn lemma_digit_run_exact(c: Seq<u8>, i: int, k: int)
    requires
        0 <= i,
        k >= 0,
        i + k <= c.len(),
        forall|j: int| 0 <= j < k ==> is_ascii_digit_byte(#[trigger] c[i + j]),
        i + k == c.len() || !is_ascii_digit_byte(c[i + k]),
    ensures
        digit_run_from(c, i) == k,
    decreases k,
{
    if k == 0 {
    } else {
        assert(is_ascii_digit_byte(c[i + 0]));
        assert forall|j: int| 0 <= j < k - 1 implies is_ascii_digit_byte(
            #[trigger] c[i + 1 + j],
        ) by {
            assert(c[i + 1 + j] == c[i + (j + 1)]);
            assert(is_ascii_digit_byte(c[i + (j + 1)]));
        }
        assert(i + 1 + (k - 1) == c.len() || !is_ascii_digit_byte(c[i + 1 + (k - 1)])) by {
            assert(i + 1 + (k - 1) == i + k);
        }
        lemma_digit_run_exact(c, i + 1, k - 1);
        assert(digit_run_from(c, i) == 1 + digit_run_from(c, i + 1));
    }
}

/// A rendered number followed by a non-digit tail parses back to itself.
pub proof fn lemma_parse_dec_roundtrip(n: u64, tail: Seq<u8>)
    requires
        tail.len() == 0 || !is_ascii_digit_byte(tail[0]),
    ensures
        spec_parse_u64_at(dec_bytes(n as nat) + tail) == Some(
            (n, dec_bytes(n as nat).len() as int),
        ),
{
    lemma_dec_bytes(n as nat);
    let d = dec_bytes(n as nat);
    let b = d + tail;
    assert forall|j: int| 0 <= j < d.len() implies is_ascii_digit_byte(#[trigger] b[0 + j]) by {
        assert(b[0 + j] == d[j]);
    }
    if tail.len() > 0 {
        assert(b[0 + d.len() as int] == tail[0]);
    }
    lemma_digit_run_exact(b, 0, d.len() as int);
    assert(b.subrange(0, d.len() as int) =~= d);
}

} // verus!
