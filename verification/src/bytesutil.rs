//! Byte-level helpers shared by the scanner, chunker and file formats:
//! equality and search over byte slices, ASCII classification, decimal
//! rendering and parsing, and the bridge between byte vectors and strings.

use vstd::prelude::*;
use vstd::utf8::valid_utf8;
use vstd::utf8::decode_utf8;
use vstd::utf8::encode_utf8;
use vstd::string::StrSliceExecFns;
use vstd::std_specs::iter::IteratorSpec;

verus! {

broadcast use vstd::string::group_string_axioms;

/// Equality of two byte slices.
pub fn bytes_eq(a: &[u8], b: &[u8]) -> (r: bool)
    ensures
        r == (a@ == b@),
{
    if a.len() != b.len() {
        assert(a@.len() != b@.len());
        return false;
    }
    let mut i: usize = 0;
    while i < a.len()
        invariant
            i <= a.len(),
            a.len() == b.len(),
            forall|j: int| 0 <= j < i ==> a@[j] == b@[j],
        decreases a.len() - i,
    {
        if a[i] != b[i] {
            return false;
        }
        i = i + 1;
    }
    assert(a@ =~= b@);
    true
}

/// Does `a` begin with `p`?
pub open spec fn spec_starts_with(a: Seq<u8>, p: Seq<u8>) -> bool {
    p.len() <= a.len() && a.subrange(0, p.len() as int) == p
}

pub fn bytes_starts_with(a: &[u8], p: &[u8]) -> (r: bool)
    ensures
        r == spec_starts_with(a@, p@),
{
    if p.len() > a.len() {
        return false;
    }
    let mut i: usize = 0;
    while i < p.len()
        invariant
            i <= p.len(),
            p.len() <= a.len(),
            forall|j: int| 0 <= j < i ==> a@[j] == p@[j],
        decreases p.len() - i,
    {
        if a[i] != p[i] {
            assert(a@.subrange(0, p@.len() as int)[i as int] != p@[i as int]);
            return false;
        }
        i = i + 1;
    }
    assert(a@.subrange(0, p@.len() as int) =~= p@);
    true
}

/// Copy of `v[start..end]` as a fresh vector.
pub fn subvec(v: &[u8], start: usize, end: usize) -> (r: Vec<u8>)
    requires
        start <= end <= v@.len(),
    ensures
        r@ == v@.subrange(start as int, end as int),
{
    let mut r: Vec<u8> = Vec::new();
    r.extend_from_slice(&v[start..end]);
    r
}


/// A concatenation begins with its first part, and skipping it leaves the
/// second.
pub proof fn lemma_concat_prefix(a: Seq<u8>, rest: Seq<u8>)
    ensures
        spec_starts_with(a + rest, a),
        (a + rest).skip(a.len() as int) == rest,
{
    assert((a + rest).subrange(0, a.len() as int) =~= a);
    assert((a + rest).skip(a.len() as int) =~= rest);
}


/// Concatenation of byte sequences is associative.
pub proof fn lemma_concat_assoc(a: Seq<u8>, b: Seq<u8>, c: Seq<u8>)
    ensures
        (a + b) + c == a + (b + c),
{
    assert((a + b) + c =~= a + (b + c));
}

// ---------------------------------------------------------------------------
// ASCII classification
// ---------------------------------------------------------------------------

pub open spec fn is_ascii_ws(b: u8) -> bool {
    b == 0x20 || b == 0x09 || b == 0x0a || b == 0x0d || b == 0x0b || b == 0x0c
}

pub fn ascii_ws(b: u8) -> (r: bool)
    ensures
        r == is_ascii_ws(b),
{
    b == 0x20 || b == 0x09 || b == 0x0a || b == 0x0d || b == 0x0b || b == 0x0c
}

pub open spec fn is_ascii_digit_byte(b: u8) -> bool {
    0x30 <= b <= 0x39
}

pub fn ascii_digit_byte(b: u8) -> (r: bool)
    ensures
        r == is_ascii_digit_byte(b),
{
    0x30 <= b && b <= 0x39
}

// ---------------------------------------------------------------------------
// Trimming ASCII whitespace
// ---------------------------------------------------------------------------

/// Length of the whitespace run of `s` beginning at index `i`.
pub open spec fn ws_run_from(s: Seq<u8>, i: int) -> nat
    decreases s.len() - i when 0 <= i <= s.len()
{
    if i < s.len() && is_ascii_ws(s[i]) {
        1 + ws_run_from(s, i + 1)
    } else {
        0
    }
}

/// Length of the whitespace run of `s` ending just before index `i`.
pub open spec fn ws_run_back(s: Seq<u8>, i: int) -> nat
    decreases i when 0 <= i <= s.len()
{
    if i > 0 && is_ascii_ws(s[i - 1]) {
        1 + ws_run_back(s, i - 1)
    } else {
        0
    }
}

/// `s` with leading and trailing ASCII whitespace removed.
pub open spec fn trim_ascii(s: Seq<u8>) -> Seq<u8> {
    let start = ws_run_from(s, 0) as int;
    if start == s.len() {
        Seq::empty()
    } else {
        let end = s.len() - ws_run_back(s, s.len() as int);
        s.subrange(start, end)
    }
}

/// Remove leading and trailing ASCII whitespace.
pub fn trim_bytes(v: &[u8]) -> (r: Vec<u8>)
    ensures
        r@ == trim_ascii(v@),
{
    let ghost s = v@;
    let mut start: usize = 0;
    while start < v.len() && ascii_ws(v[start])
        invariant
            start <= v@.len(),
            v@ == s,
            ws_run_from(s, 0) == start + ws_run_from(s, start as int),
        decreases v@.len() - start,
    {
        proof {
            assert(ws_run_from(s, start as int) == 1 + ws_run_from(s, start as int + 1));
        }
        start = start + 1;
    }
    assert(ws_run_from(s, start as int) == 0);
    assert(ws_run_from(s, 0) == start);
    if start == v.len() {
        assert(trim_ascii(s) =~= Seq::<u8>::empty());
        return Vec::new();
    }
    assert(!is_ascii_ws(s[start as int]));
    let mut end: usize = v.len();
    while end > start && ascii_ws(v[end - 1])
        invariant
            start < end <= v@.len(),
            v@ == s,
            start == ws_run_from(s, 0),
            start < v@.len(),
            !is_ascii_ws(s[start as int]),
            ws_run_back(s, s.len() as int) == (s.len() - end) + ws_run_back(s, end as int),
        decreases end,
    {
        proof {
            assert(ws_run_back(s, end as int) == 1 + ws_run_back(s, end as int - 1));
            if end - 1 == start {
                assert(is_ascii_ws(s[start as int]));
                assert(false);
            }
        }
        end = end - 1;
    }
    proof {
        assert(end > start && !is_ascii_ws(s[end - 1]));
        assert(ws_run_back(s, end as int) == 0);
        assert(ws_run_back(s, s.len() as int) == s.len() - end);
    }
    subvec(v, start, end)
}

// ---------------------------------------------------------------------------
// Searching
// ---------------------------------------------------------------------------

/// Index of the first occurrence of `b` in `s` at or after `i`, or -1.
pub open spec fn first_index_from(s: Seq<u8>, i: int, b: u8) -> int
    decreases s.len() - i when 0 <= i <= s.len()
{
    if i >= s.len() {
        -1
    } else if s[i] == b {
        i
    } else {
        first_index_from(s, i + 1, b)
    }
}

pub proof fn lemma_first_index_from(s: Seq<u8>, i: int, b: u8)
    requires
        0 <= i <= s.len(),
    ensures
        first_index_from(s, i, b) == -1 ==> forall|j: int| i <= j < s.len() ==> s[j] != b,
        first_index_from(s, i, b) != -1 ==> {
            let r = first_index_from(s, i, b);
            &&& i <= r < s.len()
            &&& s[r] == b
            &&& forall|j: int| i <= j < r ==> s[j] != b
        },
    decreases s.len() - i,
{
    if i < s.len() && s[i] != b {
        lemma_first_index_from(s, i + 1, b);
    }
}

/// First occurrence of `b` in `v` at or after `from`.
pub fn find_byte_from(v: &[u8], from: usize, b: u8) -> (r: Option<usize>)
    requires
        from <= v@.len(),
    ensures
        r is Some ==> {
            &&& from <= r->0 < v@.len()
            &&& first_index_from(v@, from as int, b) == r->0
        },
        r is None ==> first_index_from(v@, from as int, b) == -1,
{
    let ghost s = v@;
    let mut i: usize = from;
    while i < v.len()
        invariant
            from <= i <= v@.len(),
            v@ == s,
            first_index_from(s, from as int, b) == first_index_from(s, i as int, b),
        decreases v@.len() - i,
    {
        if v[i] == b {
            return Some(i);
        }
        proof {
            assert(first_index_from(s, i as int, b) == first_index_from(s, i as int + 1, b));
        }
        i = i + 1;
    }
    None
}

// ---------------------------------------------------------------------------
// Decimal numbers
// ---------------------------------------------------------------------------

/// Length of the run of ASCII digits of `s` beginning at index `i`.
pub open spec fn digit_run_from(s: Seq<u8>, i: int) -> nat
    decreases s.len() - i when 0 <= i <= s.len()
{
    if i < s.len() && is_ascii_digit_byte(s[i]) {
        1 + digit_run_from(s, i + 1)
    } else {
        0
    }
}

pub proof fn lemma_digit_run_from_bound(s: Seq<u8>, i: int)
    requires
        0 <= i <= s.len(),
    ensures
        i + digit_run_from(s, i) <= s.len(),
    decreases s.len() - i,
{
    if i < s.len() && is_ascii_digit_byte(s[i]) {
        lemma_digit_run_from_bound(s, i + 1);
    }
}

/// Numeric value of a sequence of ASCII digits.
pub open spec fn dec_value(s: Seq<u8>) -> int
    decreases s.len()
{
    if s.len() == 0 {
        0
    } else {
        dec_value(s.drop_last()) * 10 + (s.last() - 0x30)
    }
}

pub open spec fn all_digits(s: Seq<u8>) -> bool {
    forall|j: int| 0 <= j < s.len() ==> is_ascii_digit_byte(s[j])
}

pub proof fn lemma_dec_value_nonneg(s: Seq<u8>)
    requires
        all_digits(s),
    ensures
        dec_value(s) >= 0,
    decreases s.len(),
{
    if s.len() > 0 {
        assert(all_digits(s.drop_last()));
        lemma_dec_value_nonneg(s.drop_last());
    }
}

/// Dropping trailing digits never increases the value.
pub proof fn lemma_dec_value_prefix_le(s: Seq<u8>, j: int)
    requires
        all_digits(s),
        0 <= j <= s.len(),
    ensures
        dec_value(s.subrange(0, j)) <= dec_value(s),
    decreases s.len() - j,
{
    if j < s.len() {
        lemma_dec_value_prefix_le(s, j + 1);
        let p = s.subrange(0, j + 1);
        assert(p.drop_last() =~= s.subrange(0, j));
        assert(all_digits(s.subrange(0, j)));
        lemma_dec_value_nonneg(s.subrange(0, j));
        assert(dec_value(p) == dec_value(s.subrange(0, j)) * 10 + (p.last() - 0x30));
        assert(dec_value(s.subrange(0, j)) * 10 >= dec_value(s.subrange(0, j)));
        assert(dec_value(s.subrange(0, j)) <= dec_value(p));
    } else {
        assert(s.subrange(0, j) =~= s);
    }
}

/// A decimal string with its optional leading `+` removed.
pub open spec fn dec_digits_part(s: Seq<u8>) -> Seq<u8> {
    if s.len() > 0 && s[0] == 0x2b {
        s.drop_first()
    } else {
        s
    }
}

/// The value denoted by a decimal string as `u64::from_str` reads it:
/// an optional leading `+`, then one or more digits, within range.
pub open spec fn spec_parse_u64(s: Seq<u8>) -> Option<u64> {
    let d = dec_digits_part(s);
    if d.len() > 0 && all_digits(d) && dec_value(d) <= u64::MAX {
        Some(dec_value(d) as u64)
    } else {
        None
    }
}

/// Parse an unsigned decimal number, rejecting overflow,
/// as `u64::from_str` does.
pub fn parse_u64_bytes(v: &[u8]) -> (r: Option<u64>)
    ensures
        r == spec_parse_u64(v@),
{
    let ghost s0 = v@;
    let start: usize = if v.len() > 0 && v[0] == 0x2b {
        1
    } else {
        0
    };
    let ghost d = dec_digits_part(s0);
    assert(d =~= s0.subrange(start as int, s0.len() as int));
    if v.len() == start {
        return None;
    }
    let mut acc: u64 = 0;
    let mut i: usize = start;
    while i < v.len()
        invariant
            start <= i <= v@.len(),
            v@ == s0,
            start <= 1,
            d == dec_digits_part(s0),
            d == s0.subrange(start as int, s0.len() as int),
            all_digits(d.subrange(0, i - start)),
            acc == dec_value(d.subrange(0, i - start)),
        decreases v@.len() - i,
    {
        let b = v[i];
        if !ascii_digit_byte(b) {
            proof {
                assert(d[i - start] == v@[i as int]);
                assert(!all_digits(d));
            }
            return None;
        }
        let dig: u64 = (b - 0x30) as u64;
        let ghost pre = d.subrange(0, i - start);
        let ghost pre1 = d.subrange(0, i + 1 - start);
        assert(pre1.drop_last() =~= pre);
        assert(pre1.last() == b);
        assert(dec_value(pre1) == dec_value(pre) * 10 + dig);
        if acc > (u64::MAX - dig) / 10 {
            proof {
                assert(acc * 10 + dig > u64::MAX) by (nonlinear_arith)
                    requires
                        acc > (u64::MAX - dig) / 10,
                        dig <= 9,
                ;
                assert(all_digits(pre1));
                if all_digits(d) {
                    lemma_dec_value_prefix_le(d, i + 1 - start);
                    assert(dec_value(d) >= dec_value(pre1));
                    assert(dec_value(d) > u64::MAX);
                }
            }
            return None;
        }
        assert(acc * 10 + dig <= u64::MAX) by (nonlinear_arith)
            requires
                acc <= (u64::MAX - dig) / 10,
                dig <= 9,
        ;
        acc = acc * 10 + dig;
        i = i + 1;
    }
    assert(d.subrange(0, d.len() as int) =~= d);
    Some(acc)
}

/// The decimal digits of `n`, most significant first.
pub open spec fn dec_bytes(n: nat) -> Seq<u8>
    decreases n
{
    if n < 10 {
        seq![(0x30 + n) as u8]
    } else {
        dec_bytes(n / 10).push((0x30 + n % 10) as u8)
    }
}

/// Render `n` in decimal.
pub fn u64_to_dec(n: u64) -> (r: Vec<u8>)
    ensures
        r@ == dec_bytes(n as nat),
    decreases n,
{
    if n < 10 {
        let mut v: Vec<u8> = Vec::new();
        v.push(0x30 + (n as u8));
        assert(v@ =~= dec_bytes(n as nat));
        v
    } else {
        let mut v = u64_to_dec(n / 10);
        v.push(0x30 + ((n % 10) as u8));
        assert(v@ =~= dec_bytes(n as nat));
        v
    }
}

pub fn usize_to_dec(n: usize) -> (r: Vec<u8>)
    ensures
        r@ == dec_bytes(n as nat),
{
    u64_to_dec(n as u64)
}


/// The decimal digits of `n` as characters.
pub open spec fn dec_chars(n: nat) -> Seq<char>
    decreases n
{
    if n < 10 {
        seq![digit_char(n as int)]
    } else {
        dec_chars(n / 10).push(digit_char((n % 10) as int))
    }
}

/// The digit character for a value below ten.
pub open spec fn digit_char(n: int) -> char {
    if n == 0 {
        '0'
    } else if n == 1 {
        '1'
    } else if n == 2 {
        '2'
    } else if n == 3 {
        '3'
    } else if n == 4 {
        '4'
    } else if n == 5 {
        '5'
    } else if n == 6 {
        '6'
    } else if n == 7 {
        '7'
    } else if n == 8 {
        '8'
    } else {
        '9'
    }
}

fn digit_char_exec(n: u64) -> (r: char)
    requires
        n < 10,
    ensures
        r == digit_char(n as int),
{
    if n == 0 {
        '0'
    } else if n == 1 {
        '1'
    } else if n == 2 {
        '2'
    } else if n == 3 {
        '3'
    } else if n == 4 {
        '4'
    } else if n == 5 {
        '5'
    } else if n == 6 {
        '6'
    } else if n == 7 {
        '7'
    } else if n == 8 {
        '8'
    } else {
        '9'
    }
}

/// Render `n` in decimal, as characters.
pub fn u64_to_dec_chars(n: u64) -> (r: Vec<char>)
    ensures
        r@ == dec_chars(n as nat),
    decreases n,
{
    if n < 10 {
        let mut v: Vec<char> = Vec::new();
        v.push(digit_char_exec(n));
        assert(v@ =~= dec_chars(n as nat));
        v
    } else {
        let mut v = u64_to_dec_chars(n / 10);
        v.push(digit_char_exec(n % 10));
        assert(v@ =~= dec_chars(n as nat));
        v
    }
}

// ---------------------------------------------------------------------------
// Bytes <-> String
// ---------------------------------------------------------------------------

/// The UTF-8 bytes of a string.
pub fn str_bytes(s: &str) -> (r: Vec<u8>)
    ensures
        r@ == encode_utf8(s@),
{
    s.as_bytes_vec()
}

/// Relies on `std::str::from_utf8`: it accepts exactly the valid UTF-8
/// byte sequences.
#[verifier::external_body]
pub fn check_utf8(v: &[u8]) -> (r: bool)
    ensures
        r == valid_utf8(v@),
{
    core::str::from_utf8(v).is_ok()
}

/// Relies on `String::from_utf8`: bytes that are valid UTF-8 decode to the
/// string that encodes them.
#[verifier::external_body]
pub fn bytes_to_string(v: Vec<u8>) -> (r: String)
    requires
        valid_utf8(v@),
    ensures
        r@ == decode_utf8(v@),
{
    String::from_utf8(v).unwrap_or_default()
}

/// Relies on `String::push`: it appends the character to the string.
pub assume_specification[ String::push ](s: &mut String, c: char)
    ensures
        final(s)@ == old(s)@.push(c),
;

/// The characters of a string, in order.
pub fn str_chars(s: &str) -> (r: Vec<char>)
    ensures
        r@ == s@,
{
    let mut it = s.chars();
    let mut r: Vec<char> = Vec::new();
    loop
        invariant
            it.obeys_prophetic_iter_laws(),
            it.decrease() is Some,
            r@ + it.remaining() == s@,
        ensures
            r@ == s@,
        decreases it.decrease()->0,
    {
        match it.next() {
            Some(c) => {
                r.push(c);
            },
            None => {
                proof {
                    assert(r@ + it.remaining() =~= r@);
                }
                break;
            },
        }
    }
    r
}

/// A string made of the given characters.
pub fn chars_to_string(v: &[char]) -> (r: String)
    ensures
        r@ == v@,
{
    let mut r = String::new();
    let mut i: usize = 0;
    while i < v.len()
        invariant
            i <= v@.len(),
            r@ == v@.subrange(0, i as int),
        decreases v@.len() - i,
    {
        r.push(v[i]);
        assert(r@ =~= v@.subrange(0, i + 1));
        i = i + 1;
    }
    assert(r@ =~= v@);
    r
}

} // verus!
