//! The vector file: a little-endian binary format holding, after a `VEC0`
//! magic, the dimension, the row count, one id per row, and the raw 32-bit
//! words of each row's floats. Encoding and decoding invert one another.

use vstd::prelude::*;
use vstd::utf8::encode_utf8;
use vstd::bytes::spec_u32_to_le_bytes;
use vstd::bytes::spec_u32_from_le_bytes;
use vstd::bytes::spec_u64_to_le_bytes;
use vstd::bytes::spec_u64_from_le_bytes;
use vstd::bytes::u32_to_le_bytes;
use vstd::bytes::u32_from_le_bytes;
use vstd::bytes::u64_to_le_bytes;
use vstd::bytes::u64_from_le_bytes;
use vstd::bytes::lemma_auto_spec_u32_to_from_le_bytes;
use vstd::bytes::lemma_auto_spec_u64_to_from_le_bytes;
use crate::bytesutil::str_bytes;
use crate::bytesutil::bytes_eq;
use crate::bytesutil::subvec;

verus! {

/// The little-endian bytes of a sequence of 64-bit values, in order.
pub open spec fn le_bytes_of_u64s(s: Seq<u64>) -> Seq<u8>
    decreases s.len()
{
    if s.len() == 0 {
        Seq::empty()
    } else {
        le_bytes_of_u64s(s.drop_last()) + spec_u64_to_le_bytes(s.last())
    }
}

/// The little-endian bytes of a sequence of 32-bit words, in order.
pub open spec fn le_bytes_of_u32s(s: Seq<u32>) -> Seq<u8>
    decreases s.len()
{
    if s.len() == 0 {
        Seq::empty()
    } else {
        le_bytes_of_u32s(s.drop_last()) + spec_u32_to_le_bytes(s.last())
    }
}

pub proof fn lemma_le_bytes_of_u64s_len(s: Seq<u64>)
    ensures
        le_bytes_of_u64s(s).len() == 8 * s.len(),
    decreases s.len(),
{
    if s.len() > 0 {
        lemma_le_bytes_of_u64s_len(s.drop_last());
        lemma_auto_spec_u64_to_from_le_bytes();
    }
}

pub proof fn lemma_le_bytes_of_u32s_len(s: Seq<u32>)
    ensures
        le_bytes_of_u32s(s).len() == 4 * s.len(),
    decreases s.len(),
{
    if s.len() > 0 {
        lemma_le_bytes_of_u32s_len(s.drop_last());
        lemma_auto_spec_u32_to_from_le_bytes();
    }
}

pub proof fn lemma_le_bytes_of_u64s_index(s: Seq<u64>, i: int)
    requires
        0 <= i < s.len(),
    ensures
        le_bytes_of_u64s(s).subrange(8 * i, 8 * i + 8) == spec_u64_to_le_bytes(s[i]),
    decreases s.len(),
{
    lemma_le_bytes_of_u64s_len(s);
    lemma_le_bytes_of_u64s_len(s.drop_last());
    lemma_auto_spec_u64_to_from_le_bytes();
    if i == s.len() - 1 {
        assert(le_bytes_of_u64s(s).subrange(8 * i, 8 * i + 8) =~= spec_u64_to_le_bytes(s.last()));
    } else {
        lemma_le_bytes_of_u64s_index(s.drop_last(), i);
        assert(le_bytes_of_u64s(s).subrange(8 * i, 8 * i + 8) =~= le_bytes_of_u64s(
            s.drop_last(),
        ).subrange(8 * i, 8 * i + 8));
    }
}

pub proof fn lemma_le_bytes_of_u32s_index(s: Seq<u32>, i: int)
    requires
        0 <= i < s.len(),
    ensures
        le_bytes_of_u32s(s).subrange(4 * i, 4 * i + 4) == spec_u32_to_le_bytes(s[i]),
    decreases s.len(),
{
    lemma_le_bytes_of_u32s_len(s);
    lemma_le_bytes_of_u32s_len(s.drop_last());
    lemma_auto_spec_u32_to_from_le_bytes();
    if i == s.len() - 1 {
        assert(le_bytes_of_u32s(s).subrange(4 * i, 4 * i + 4) =~= spec_u32_to_le_bytes(s.last()));
    } else {
        lemma_le_bytes_of_u32s_index(s.drop_last(), i);
        assert(le_bytes_of_u32s(s).subrange(4 * i, 4 * i + 4) =~= le_bytes_of_u32s(
            s.drop_last(),
        ).subrange(4 * i, 4 * i + 4));
    }
}

/// The encoded vector file: magic, dimension, row count, ids, then the raw
/// words of the row-major vector data.
pub open spec fn spec_encode_vectors(dim: u32, ids: Seq<u64>, data: Seq<u32>) -> Seq<u8> {
    encode_utf8("VEC0"@) + spec_u32_to_le_bytes(dim) + spec_u64_to_le_bytes(ids.len() as u64)
        + le_bytes_of_u64s(ids) + le_bytes_of_u32s(data)
}

/// The decoded vector file, when the bytes carry the magic and their length
/// agrees exactly with the dimension and row count they declare.
pub open spec fn spec_decode_vectors(b: Seq<u8>) -> Option<(u32, Seq<u64>, Seq<u32>)> {
    if b.len() < 16 {
        None
    } else if b.subrange(0, 4) != encode_utf8("VEC0"@) {
        None
    } else {
        let dim = spec_u32_from_le_bytes(b.subrange(4, 8));
        let rows = spec_u64_from_le_bytes(b.subrange(8, 16)) as int;
        let words = rows * dim;
        if b.len() == 16 + 8 * rows + 4 * words {
            let ids = Seq::new(rows as nat, |i: int| spec_u64_from_le_bytes(
                b.subrange(16 + 8 * i, 16 + 8 * i + 8),
            ));
            let data = Seq::new(words as nat, |i: int| spec_u32_from_le_bytes(
                b.subrange(16 + 8 * rows + 4 * i, 16 + 8 * rows + 4 * i + 4),
            ));
            Some((dim, ids, data))
        } else {
            None
        }
    }
}

/// Encode the vector file.
pub fn encode_vectors_file(dim: u32, ids: &Vec<u64>, data: &Vec<u32>) -> (r: Vec<u8>)
    ensures
        r@ == spec_encode_vectors(dim, ids@, data@),
{
    let mut out = str_bytes("VEC0");
    let mut dim_b = u32_to_le_bytes(dim);
    out.append(&mut dim_b);
    let mut rows_b = u64_to_le_bytes(ids.len() as u64);
    out.append(&mut rows_b);
    let ghost header = out@;
    let mut i: usize = 0;
    while i < ids.len()
        invariant
            i <= ids@.len(),
            out@ == header + le_bytes_of_u64s(ids@.subrange(0, i as int)),
        decreases ids@.len() - i,
    {
        let mut idb = u64_to_le_bytes(ids[i]);
        out.append(&mut idb);
        proof {
            let p = ids@.subrange(0, i + 1);
            assert(p.drop_last() =~= ids@.subrange(0, i as int));
            assert(out@ =~= header + le_bytes_of_u64s(p));
        }
        i = i + 1;
    }
    assert(ids@.subrange(0, ids@.len() as int) =~= ids@);
    let ghost with_ids = out@;
    let mut j: usize = 0;
    while j < data.len()
        invariant
            j <= data@.len(),
            out@ == with_ids + le_bytes_of_u32s(data@.subrange(0, j as int)),
        decreases data@.len() - j,
    {
        let mut wb = u32_to_le_bytes(data[j]);
        out.append(&mut wb);
        proof {
            let p = data@.subrange(0, j + 1);
            assert(p.drop_last() =~= data@.subrange(0, j as int));
            assert(out@ =~= with_ids + le_bytes_of_u32s(p));
        }
        j = j + 1;
    }
    assert(data@.subrange(0, data@.len() as int) =~= data@);
    assert(out@ =~= spec_encode_vectors(dim, ids@, data@));
    out
}

/// Decode a vector file. Returns the dimension, ids and raw vector words,
/// or nothing when the bytes are not a complete, well-formed file.
pub fn decode_vectors_file(b: &[u8]) -> (r: Option<(u32, Vec<u64>, Vec<u32>)>)
    ensures
        match (r, spec_decode_vectors(b@)) {
            (Some(x), Some(y)) => x.0 == y.0 && x.1@ == y.1 && x.2@ == y.2,
            (None, None) => true,
            _ => false,
        },
{
    let n = b.len();
    if n < 16 {
        return None;
    }
    let magic = str_bytes("VEC0");
    let head = subvec(b, 0, 4);
    if !bytes_eq(&head, &magic) {
        return None;
    }
    let dim = u32_from_le_bytes(&b[4..8]);
    assert(b@.subrange(4, 8) == b@.subrange(4int, 8int));
    let rows64 = u64_from_le_bytes(&b[8..16]);
    let ghost rows_g = spec_u64_from_le_bytes(b@.subrange(8, 16)) as int;
    // The length must agree exactly: 16 + 8*rows + 4*rows*dim bytes.
    proof {
        assert(16 + 8 * (rows64 as int) + 4 * (rows64 as int) * (dim as int) < u128::MAX)
            by (nonlinear_arith)
            requires
                rows64 <= u64::MAX,
                dim <= u32::MAX,
        ;
    }
    let need: u128 = 16u128 + 8u128 * (rows64 as u128) + 4u128 * (rows64 as u128) * (dim as u128);
    proof {
        assert(need as int == 16 + 8 * rows_g + 4 * (rows_g * (dim as int))) by (nonlinear_arith)
            requires
                rows_g == rows64 as int,
                need == 16u128 + 8u128 * (rows64 as u128) + 4u128 * (rows64 as u128) * (dim
                    as u128),
                rows64 <= u64::MAX,
                dim <= u32::MAX,
        ;
    }
    if (n as u128) != need {
        return None;
    }
    assert(n as int == 16 + 8 * rows_g + 4 * (rows_g * dim)) by (nonlinear_arith)
        requires
            n as u128 == 16u128 + 8u128 * (rows64 as u128) + 4u128 * (rows64 as u128) * (dim
                as u128),
            rows_g == rows64 as int,
    ;
    let rows = rows64 as usize;
    assert(rows as int == rows_g) by (nonlinear_arith)
        requires
            n as int == 16 + 8 * rows_g + 4 * (rows_g * dim),
            rows_g == rows64 as int,
            rows_g >= 0,
            dim >= 0,
            n <= usize::MAX,
            rows == rows64 as usize,
    ;
    let mut ids: Vec<u64> = Vec::new();
    let mut i: usize = 0;
    while i < rows
        invariant
            i <= rows,
            rows as int == rows_g,
            n == b@.len(),
            n as int == 16 + 8 * rows_g + 4 * (rows_g * dim as int),
            ids@ == Seq::new(i as nat, |k: int| spec_u64_from_le_bytes(
                b@.subrange(16 + 8 * k, 16 + 8 * k + 8),
            )),
        decreases rows - i,
    {
        proof {
            assert(16 + 8 * (i as int) + 8 <= 16 + 8 * rows_g) by (nonlinear_arith)
                requires
                    i as int + 1 <= rows_g,
            ;
            assert(16 + 8 * rows_g <= n as int) by (nonlinear_arith)
                requires
                    n as int == 16 + 8 * rows_g + 4 * (rows_g * dim as int),
                    rows_g >= 0,
                    dim >= 0,
            ;
        }
        let off: usize = 16 + 8 * i;
        let id = u64_from_le_bytes(&b[off..off + 8]);
        ids.push(id);
        proof {
            assert(ids@ =~= Seq::new((i + 1) as nat, |k: int| spec_u64_from_le_bytes(
                b@.subrange(16 + 8 * k, 16 + 8 * k + 8),
            )));
        }
        i = i + 1;
    }
    let words: usize = rows * dim as usize;
    assert(words as int == rows_g * dim) by (nonlinear_arith)
        requires
            n as int == 16 + 8 * rows_g + 4 * (rows_g * dim as int),
            rows as int == rows_g,
            rows_g >= 0,
            dim >= 0,
            n <= usize::MAX,
            words == rows * (dim as usize),
    ;
    let base: usize = 16 + 8 * rows;
    let mut data: Vec<u32> = Vec::new();
    let mut j: usize = 0;
    while j < words
        invariant
            j <= words,
            rows as int == rows_g,
            base as int == 16 + 8 * rows_g,
            n == b@.len(),
            n as int == 16 + 8 * rows_g + 4 * (words as int),
            data@ == Seq::new(j as nat, |k: int| spec_u32_from_le_bytes(
                b@.subrange(base as int + 4 * k, base as int + 4 * k + 4),
            )),
        decreases words - j,
    {
        proof {
            assert(base as int + 4 * (j as int) + 4 <= n as int) by (nonlinear_arith)
                requires
                    j as int + 1 <= words as int,
                    base as int == 16 + 8 * rows_g,
                    n as int == 16 + 8 * rows_g + 4 * (words as int),
            ;
        }
        let off: usize = base + 4 * j;
        let w = u32_from_le_bytes(&b[off..off + 4]);
        data.push(w);
        proof {
            assert(data@ =~= Seq::new((j + 1) as nat, |k: int| spec_u32_from_le_bytes(
                b@.subrange(base as int + 4 * k, base as int + 4 * k + 4),
            )));
        }
        j = j + 1;
    }
    proof {
        assert(b@.subrange(0, 4) == head@);
        assert(b@.len() == 16 + 8 * rows_g + 4 * (rows_g * dim));
        let sd = spec_decode_vectors(b@);
        assert(sd is Some);
        assert(ids@ =~= (sd->0).1);
        assert(data@ =~= (sd->0).2);
    }
    Some((dim, ids, data))
}

/// Writing a vector file and reading it back yields the identical
/// dimension, ids, and data words.
pub proof fn lemma_vectors_roundtrip(dim: u32, ids: Seq<u64>, data: Seq<u32>)
    requires
        ids.len() <= u64::MAX,
        data.len() == ids.len() * dim,
    ensures
        spec_decode_vectors(spec_encode_vectors(dim, ids, data)) == Some((dim, ids, data)),
{
    let b = spec_encode_vectors(dim, ids, data);
    lemma_auto_spec_u32_to_from_le_bytes();
    lemma_auto_spec_u64_to_from_le_bytes();
    lemma_le_bytes_of_u64s_len(ids);
    lemma_le_bytes_of_u32s_len(data);
    assert(encode_utf8("VEC0"@).len() == 4) by {
        reveal_strlit("VEC0");
        assert(vstd::utf8::is_ascii_chars("VEC0"@));
        vstd::utf8::is_ascii_chars_encode_utf8("VEC0"@);
    }
    assert(b.len() == 16 + 8 * ids.len() + 4 * data.len());
    assert(b.subrange(0, 4) =~= encode_utf8("VEC0"@));
    assert(b.subrange(4, 8) =~= spec_u32_to_le_bytes(dim));
    assert(b.subrange(8, 16) =~= spec_u64_to_le_bytes(ids.len() as u64));
    let rows = ids.len() as int;
    assert(spec_u64_from_le_bytes(b.subrange(8, 16)) == ids.len());
    let sd = spec_decode_vectors(b);
    assert(b.len() == 16 + 8 * rows + 4 * (rows * dim));
    assert(sd is Some);
    let got_ids = (sd->0).1;
    assert forall|i: int| 0 <= i < rows implies got_ids[i] == ids[i] by {
        lemma_le_bytes_of_u64s_index(ids, i);
        assert(b.subrange(16 + 8 * i, 16 + 8 * i + 8) =~= le_bytes_of_u64s(ids).subrange(
            8 * i,
            8 * i + 8,
        ));
    }
    assert(got_ids =~= ids);
    let got_data = (sd->0).2;
    assert forall|i: int| 0 <= i < data.len() implies got_data[i] == data[i] by {
        lemma_le_bytes_of_u32s_index(data, i);
        assert(b.subrange(16 + 8 * rows + 4 * i, 16 + 8 * rows + 4 * i + 4) =~= le_bytes_of_u32s(
            data,
        ).subrange(4 * i, 4 * i + 4));
    }
    assert(got_data =~= data);
    assert((sd->0).0 == dim);
    assert(sd == Some((dim, ids, data)));
}

} // verus!
