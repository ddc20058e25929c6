//! Reading documents from a byte slice.

use vstd::prelude::*;
use vstd::utf8::{decode_utf8, valid_utf8};
use crate::compress::{gunzip, gunzip_result, unzlib, unzlib_result};
use crate::tag::{
    keys_unique, CompoundTag, Tag, TAG_BYTE, TAG_BYTE_ARRAY, TAG_COMPOUND, TAG_DOUBLE, TAG_END,
    TAG_FLOAT, TAG_INT, TAG_INT_ARRAY, TAG_LIST, TAG_LONG, TAG_LONG_ARRAY, TAG_SHORT, TAG_STRING,
};
use crate::wire::{
    document_encodable,
    lemma_all_encodable_index, lemma_array_lens, lemma_entries_encodable_index,
    lemma_entries_prefix, lemma_entries_wf_index, lemma_payloads_len, lemma_payloads_prefix,
    any_empty_list, be16, document_bytes, encodable, all_encodable, entries_encodable, be32, be64, count_bytes, entries_any_empty_list, entries_bytes,
    entries_wf, has_empty_list, i32s_bytes, i64s_bytes, i8s_bytes, list_elem_id, list_wf,
    payload, payloads, string_bytes, string_fits, tag_wf, utf8,
};

verus! {

broadcast use vstd::utf8::group_utf8_lib;

/// Why a byte stream is not a document.
#[derive(Debug, PartialEq, Eq, Structural)]
pub enum DecodeError {
    /// The first byte is not the compound type id.
    RootNotCompound,
    /// A type id outside 1 to 12 stands where a tag is expected, or a
    /// non-empty list declares element type 0.
    InvalidTagId,
    /// The input ends before a length, count or value that it announces.
    Truncated,
    /// A string's bytes are not UTF-8.
    InvalidUtf8,
    /// Two members of one compound have the same name.
    DuplicateKey,
    /// The compressed stream could not be decompressed.
    Decompression,
}

/// Relies on `String::from_utf8`: it succeeds exactly on valid UTF-8 and
/// then holds the characters that the bytes encode.
#[verifier::external_body]
fn string_from_utf8(v: Vec<u8>) -> (r: Option<String>)
    ensures
        r is Some <==> valid_utf8(v@),
        r matches Some(s) ==> s@ == decode_utf8(v@),
{
    String::from_utf8(v).ok()
}

proof fn lemma_be16(b0: u8, b1: u8)
    ensures
        be16((((b0 as u16) << 8u16) | (b1 as u16)) as u16) == seq![b0, b1],
{
    let x: u16 = ((b0 as u16) << 8u16) | (b1 as u16);
    assert((x >> 8u16) as u8 == b0 && x as u8 == b1) by (bit_vector)
        requires
            x == ((b0 as u16) << 8u16) | (b1 as u16),
    ;
    assert(be16(x) =~= seq![b0, b1]);
}

/// `data` ends at or after `pos` but before all of `b`, and what it holds
/// from `pos` on begins `b`.
pub open spec fn cut_at(data: Seq<u8>, pos: int, b: Seq<u8>) -> bool {
    0 <= pos <= data.len() < pos + b.len() && data.subrange(pos, data.len() as int) == b.take(
        data.len() - pos,
    )
}

/// `b` stands in `data` from `pos` on.
pub open spec fn bytes_at(data: Seq<u8>, pos: int, b: Seq<u8>) -> bool {
    0 <= pos && pos + b.len() <= data.len() && data.subrange(pos, pos + b.len()) == b
}

proof fn lemma_be16_inj(x: u16, y: u16)
    requires
        be16(x) == be16(y),
    ensures
        x == y,
{
    assert(be16(x)[0] == be16(y)[0] && be16(x)[1] == be16(y)[1]);
    assert(((x >> 8u16) as u8 == (y >> 8u16) as u8 && x as u8 == y as u8) ==> x == y)
        by (bit_vector);
}

proof fn lemma_be32_inj(x: u32, y: u32)
    requires
        be32(x) == be32(y),
    ensures
        x == y,
{
    assert(be32(x)[0] == be32(y)[0] && be32(x)[1] == be32(y)[1] && be32(x)[2] == be32(y)[2]
        && be32(x)[3] == be32(y)[3]);
    assert(((x >> 24u32) as u8 == (y >> 24u32) as u8 && (x >> 16u32) as u8 == (y >> 16u32) as u8
        && (x >> 8u32) as u8 == (y >> 8u32) as u8 && x as u8 == y as u8) ==> x == y)
        by (bit_vector);
}

pub fn read_u8(data: &[u8], pos: usize) -> (r: Result<u8, DecodeError>)
    ensures
        pos < data@.len() ==> r == Ok::<u8, DecodeError>(data@[pos as int]),
        pos >= data@.len() ==> r == Err::<u8, DecodeError>(DecodeError::Truncated),
{
    if pos < data.len() {
        Ok(data[pos])
    } else {
        Err(DecodeError::Truncated)
    }
}

/// Reads a big-endian `u16` at `pos`.
pub fn read_u16(data: &[u8], pos: usize) -> (r: Result<u16, DecodeError>)
    ensures
        pos + 2 <= data@.len() ==> (r matches Ok(x) && be16(x) == data@.subrange(
            pos as int,
            pos + 2,
        )),
        pos + 2 > data@.len() ==> r == Err::<u16, DecodeError>(DecodeError::Truncated),
{
    if data.len() < 2 || pos > data.len() - 2 {
        return Err(DecodeError::Truncated);
    }
    let b0 = data[pos];
    let b1 = data[pos + 1];
    proof {
        lemma_be16(b0, b1);
    }
    assert(data@.subrange(pos as int, pos + 2) =~= seq![b0, b1]);
    Ok(((b0 as u16) << 8u16) | (b1 as u16))
}

proof fn lemma_be32(b0: u8, b1: u8, b2: u8, b3: u8)
    ensures
        be32(
            (((b0 as u32) << 24u32) | ((b1 as u32) << 16u32) | ((b2 as u32) << 8u32) | (b3 as u32)) as u32,
        ) == seq![b0, b1, b2, b3],
{
    let x: u32 = ((b0 as u32) << 24u32) | ((b1 as u32) << 16u32) | ((b2 as u32) << 8u32) | (
    b3 as u32);
    assert((x >> 24u32) as u8 == b0 && (x >> 16u32) as u8 == b1 && (x >> 8u32) as u8 == b2
        && x as u8 == b3) by (bit_vector)
        requires
            x == ((b0 as u32) << 24u32) | ((b1 as u32) << 16u32) | ((b2 as u32) << 8u32) | (
            b3 as u32),
    ;
    assert(be32(x) =~= seq![b0, b1, b2, b3]);
}

/// Reads a big-endian `u32` at `pos`.
pub fn read_u32(data: &[u8], pos: usize) -> (r: Result<u32, DecodeError>)
    ensures
        pos + 4 <= data@.len() ==> (r matches Ok(x) && be32(x) == data@.subrange(
            pos as int,
            pos + 4,
        )),
        pos + 4 > data@.len() ==> r == Err::<u32, DecodeError>(DecodeError::Truncated),
{
    if data.len() < 4 || pos > data.len() - 4 {
        return Err(DecodeError::Truncated);
    }
    let b0 = data[pos];
    let b1 = data[pos + 1];
    let b2 = data[pos + 2];
    let b3 = data[pos + 3];
    proof {
        lemma_be32(b0, b1, b2, b3);
    }
    assert(data@.subrange(pos as int, pos + 4) =~= seq![b0, b1, b2, b3]);
    Ok(((b0 as u32) << 24u32) | ((b1 as u32) << 16u32) | ((b2 as u32) << 8u32) | (b3 as u32))
}

proof fn lemma_be64(hi: u32, lo: u32)
    ensures
        be64((((hi as u64) << 32u64) | (lo as u64)) as u64) == be32(hi) + be32(lo),
{
    let x: u64 = ((hi as u64) << 32u64) | (lo as u64);
    assert((x >> 56u64) as u8 == (hi >> 24u32) as u8 && (x >> 48u64) as u8 == (hi >> 16u32) as u8
        && (x >> 40u64) as u8 == (hi >> 8u32) as u8 && (x >> 32u64) as u8 == hi as u8 && (x
        >> 24u64) as u8 == (lo >> 24u32) as u8 && (x >> 16u64) as u8 == (lo >> 16u32) as u8 && (x
        >> 8u64) as u8 == (lo >> 8u32) as u8 && x as u8 == lo as u8) by (bit_vector)
        requires
            x == ((hi as u64) << 32u64) | (lo as u64),
    ;
    assert(be64(x) =~= be32(hi) + be32(lo));
}

/// Reads a big-endian `u64` at `pos`.
pub fn read_u64(data: &[u8], pos: usize) -> (r: Result<u64, DecodeError>)
    ensures
        pos + 8 <= data@.len() ==> (r matches Ok(x) && be64(x) == data@.subrange(
            pos as int,
            pos + 8,
        )),
        pos + 8 > data@.len() ==> r == Err::<u64, DecodeError>(DecodeError::Truncated),
{
    if data.len() < 8 || pos > data.len() - 8 {
        return Err(DecodeError::Truncated);
    }
    let hi = match read_u32(data, pos) {
        Ok(x) => x,
        Err(e) => return Err(e),
    };
    let lo = match read_u32(data, pos + 4) {
        Ok(x) => x,
        Err(e) => return Err(e),
    };
    proof {
        lemma_be64(hi, lo);
    }
    assert(data@.subrange(pos as int, pos + 8) =~= data@.subrange(pos as int, pos + 4)
        + data@.subrange(pos + 4, pos + 8));
    Ok(((hi as u64) << 32u64) | (lo as u64))
}

/// Reads a string at `pos`: a big-endian `u16` byte count, then that many
/// bytes of UTF-8. On success the result also gives where the string ends.
pub fn read_string(data: &[u8], pos: usize) -> (r: Result<(String, usize), DecodeError>)
    ensures
        match r {
            Ok((s, end)) => end <= data@.len() && pos <= end && data@.subrange(pos as int, end as int)
                == string_bytes(s@) && string_fits(s@),
            Err(e) => e == DecodeError::Truncated || e == DecodeError::InvalidUtf8,
        },
        pos + 2 > data@.len() ==> r == Err::<(String, usize), DecodeError>(DecodeError::Truncated),
        (exists|s: Seq<char>| string_fits(s) && bytes_at(data@, pos as int, string_bytes(s)))
            ==> r is Ok,
        (exists|s: Seq<char>| string_fits(s) && cut_at(data@, pos as int, string_bytes(s)))
            ==> r == Err::<(String, usize), DecodeError>(DecodeError::Truncated),
        pos + 2 <= data@.len() && (forall|n: u16|
            #![trigger be16(n)]
            be16(n) == data@.subrange(pos as int, pos + 2) ==> pos + 2 + n > data@.len()) ==> r
            == Err::<(String, usize), DecodeError>(DecodeError::Truncated),
        pos + 2 <= data@.len() && (forall|n: u16|
            #![trigger be16(n)]
            be16(n) == data@.subrange(pos as int, pos + 2) ==> pos + 2 + n <= data@.len()
                && !valid_utf8(data@.subrange(pos + 2, pos + 2 + n))) ==> r == Err::<
            (String, usize),
            DecodeError,
        >(DecodeError::InvalidUtf8),
{
    let ghost ex = exists|s: Seq<char>|
        string_fits(s) && bytes_at(data@, pos as int, string_bytes(s));
    let ghost w = choose|s: Seq<char>|
        string_fits(s) && bytes_at(data@, pos as int, string_bytes(s));
    let ghost cx = exists|s: Seq<char>| string_fits(s) && cut_at(data@, pos as int, string_bytes(s));
    let ghost cw = choose|s: Seq<char>| string_fits(s) && cut_at(data@, pos as int, string_bytes(s));
    let n = match read_u16(data, pos) {
        Ok(n) => n,
        Err(e) => return Err(e),
    };
    proof {
        if ex {
            assert(data@.subrange(pos as int, pos + 2) =~= string_bytes(w).subrange(0, 2));
            assert(string_bytes(w).subrange(0, 2) =~= be16(utf8(w).len() as u16));
            lemma_be16_inj(n, utf8(w).len() as u16);
        }
        if cx {
            assert(data@.subrange(pos as int, pos + 2) =~= string_bytes(cw).subrange(0, 2));
            assert(string_bytes(cw).subrange(0, 2) =~= be16(utf8(cw).len() as u16));
            lemma_be16_inj(n, utf8(cw).len() as u16);
        }
    }
    let len = data.len();
    let start = pos + 2;
    if (n as usize) > len - start {
        return Err(DecodeError::Truncated);
    }
    let end = start + n as usize;
    let mut bytes: Vec<u8> = Vec::new();
    let mut i: usize = start;
    while i < end
        invariant
            start <= i <= end <= data@.len(),
            bytes@ == data@.subrange(start as int, i as int),
        decreases end - i,
    {
        bytes.push(data[i]);
        i = i + 1;
        assert(bytes@ =~= data@.subrange(start as int, i as int));
    }
    let ghost raw = bytes@;
    match string_from_utf8(bytes) {
        Some(s) => {
            proof {
                vstd::utf8::decode_utf8_encode_utf8(raw);
            }
            assert(utf8(s@) == raw);
            assert(data@.subrange(pos as int, end as int) =~= data@.subrange(pos as int, start as int) + raw);
            Ok((s, end))
        },
        None => {
            proof {
                if ex {
                    assert(raw =~= string_bytes(w).subrange(2, string_bytes(w).len() as int));
                    assert(raw =~= utf8(w));
                    vstd::utf8::encode_utf8_valid_utf8(w);
                }
            }
            Err(DecodeError::InvalidUtf8)
        },
    }
}

proof fn lemma_sign_casts(b: u8, x: u16, y: u32, z: u64)
    ensures
        (b as i8) as u8 == b,
        (x as i16) as u16 == x,
        (y as i32) as u32 == y,
        (z as i64) as u64 == z,
{
    assert((b as i8) as u8 == b) by (bit_vector);
    assert((x as i16) as u16 == x) by (bit_vector);
    assert((y as i32) as u32 == y) by (bit_vector);
    assert((z as i64) as u64 == z) by (bit_vector);
}

/// The byte width of a number of type `id`; 0 for a type that is no
/// number.
pub open spec fn scalar_width(id: u8) -> int {
    if id == TAG_BYTE {
        1
    } else if id == TAG_SHORT {
        2
    } else if id == TAG_INT || id == TAG_FLOAT {
        4
    } else if id == TAG_LONG || id == TAG_DOUBLE {
        8
    } else {
        0
    }
}

/// The byte width of one element of an array of type `id`; 0 for a type
/// that is no array.
pub open spec fn array_width(id: u8) -> int {
    if id == TAG_BYTE_ARRAY {
        1
    } else if id == TAG_INT_ARRAY {
        4
    } else if id == TAG_LONG_ARRAY {
        8
    } else {
        0
    }
}

/// What `read_payload` promises of a tag that it read from `data[pos..end]`.
pub open spec fn read_ok(data: Seq<u8>, pos: int, end: int, id: u8, t: Tag) -> bool {
    &&& pos < end <= data.len()
    &&& t.id() == id
    &&& tag_wf(t)
    &&& payload(t).len() == end - pos
    &&& !has_empty_list(t) ==> data.subrange(pos, end) == payload(t)
}

fn read_i8s(data: &[u8], start: usize, n: usize) -> (r: Vec<i8>)
    requires
        start + n <= data@.len(),
        start + n <= usize::MAX,
    ensures
        r@.len() == n,
        i8s_bytes(r@) == data@.subrange(start as int, start + n),
{
    let mut v: Vec<i8> = Vec::new();
    let mut i: usize = 0;
    while i < n
        invariant
            i <= n,
            start + n <= data@.len(),
            start + n <= usize::MAX,
            v@.len() == i,
            i8s_bytes(v@) == data@.subrange(start as int, start + i),
        decreases n - i,
    {
        let b = data[start + i];
        proof {
            lemma_sign_casts(b, 0, 0, 0);
        }
        let ghost prev = v@;
        v.push(#[verifier::truncate] (b as i8));
        assert(v@.drop_last() =~= prev);
        assert(i8s_bytes(v@) == i8s_bytes(prev) + seq![b]);
        i = i + 1;
        assert(data@.subrange(start as int, start + i) =~= data@.subrange(start as int, start + i
            - 1) + seq![b]);
    }
    v
}

fn read_i32s(data: &[u8], start: usize, n: usize) -> (r: Vec<i32>)
    requires
        start + 4 * n <= data@.len(),
        start + 4 * n <= usize::MAX,
    ensures
        r@.len() == n,
        i32s_bytes(r@) == data@.subrange(start as int, start + 4 * n),
{
    let mut v: Vec<i32> = Vec::new();
    let mut i: usize = 0;
    while i < n
        invariant
            i <= n,
            start + 4 * n <= data@.len(),
            start + 4 * n <= usize::MAX,
            v@.len() == i,
            i32s_bytes(v@) == data@.subrange(start as int, start + 4 * i),
        decreases n - i,
    {
        let x = match read_u32(data, start + 4 * i) {
            Ok(x) => x,
            Err(_) => {
                assert(false);
                0
            },
        };
        proof {
            lemma_sign_casts(0, 0, x, 0);
        }
        let ghost prev = v@;
        v.push(#[verifier::truncate] (x as i32));
        assert(v@.drop_last() =~= prev);
        assert(i32s_bytes(v@) == i32s_bytes(prev) + be32(x));
        assert(data@.subrange(start as int, start + 4 * (i + 1)) =~= data@.subrange(
            start as int,
            start + 4 * i,
        ) + data@.subrange(start + 4 * i, start + 4 * i + 4));
        i = i + 1;
    }
    v
}

fn read_i64s(data: &[u8], start: usize, n: usize) -> (r: Vec<i64>)
    requires
        start + 8 * n <= data@.len(),
        start + 8 * n <= usize::MAX,
    ensures
        r@.len() == n,
        i64s_bytes(r@) == data@.subrange(start as int, start + 8 * n),
{
    let mut v: Vec<i64> = Vec::new();
    let mut i: usize = 0;
    while i < n
        invariant
            i <= n,
            start + 8 * n <= data@.len(),
            start + 8 * n <= usize::MAX,
            v@.len() == i,
            i64s_bytes(v@) == data@.subrange(start as int, start + 8 * i),
        decreases n - i,
    {
        let x = match read_u64(data, start + 8 * i) {
            Ok(x) => x,
            Err(_) => {
                assert(false);
                0
            },
        };
        proof {
            lemma_sign_casts(0, 0, 0, x);
        }
        let ghost prev = v@;
        v.push(#[verifier::truncate] (x as i64));
        assert(v@.drop_last() =~= prev);
        assert(i64s_bytes(v@) == i64s_bytes(prev) + be64(x));
        assert(data@.subrange(start as int, start + 8 * (i + 1)) =~= data@.subrange(
            start as int,
            start + 8 * i,
        ) + data@.subrange(start + 8 * i, start + 8 * i + 8));
        i = i + 1;
    }
    v
}

proof fn lemma_be32_zero(x: u32)
    requires
        be32(x) == seq![0u8, 0u8, 0u8, 0u8],
    ensures
        x == 0,
{
    assert(be32(x)[0] == 0 && be32(x)[1] == 0 && be32(x)[2] == 0 && be32(x)[3] == 0);
    assert(((x >> 24u32) as u8 == 0 && (x >> 16u32) as u8 == 0 && (x >> 8u32) as u8 == 0 && x as u8
        == 0) ==> x == 0) by (bit_vector);
}

proof fn lemma_list_wf_index(s: Seq<Tag>, id: u8, k: int)
    requires
        list_wf(s, id),
        0 <= k < s.len(),
    ensures
        s[k].id() == id,
        tag_wf(s[k]),
    decreases s.len(),
{
    if k < s.len() - 1 {
        lemma_list_wf_index(s.drop_last(), id, k);
    }
}

proof fn lemma_fits(n: int, room: int, w: int)
    requires
        0 <= n <= room / w,
        0 <= room,
        0 < w,
    ensures
        w * n <= room,
{
    assert(w * n <= w * (room / w)) by (nonlinear_arith)
        requires
            0 <= n <= room / w,
            0 < w,
    ;
    assert(w * (room / w) <= room) by (nonlinear_arith)
        requires
            0 <= room,
            0 < w,
    ;
}

/// A tag that must be read back from `pos`: well formed, encodable, of
/// kind `id`, and written at `pos` in `data`.
pub open spec fn readable_at(data: Seq<u8>, pos: int, id: u8, w: Tag) -> bool {
    &&& tag_wf(w)
    &&& encodable(w)
    &&& w.id() == id
    &&& bytes_at(data, pos, payload(w))
}

/// A well-formed, encodable tag of kind `id` whose payload `data` cuts off
/// after `pos`.
pub open spec fn cut_readable_at(data: Seq<u8>, pos: int, id: u8, w: Tag) -> bool {
    &&& tag_wf(w)
    &&& encodable(w)
    &&& w.id() == id
    &&& cut_at(data, pos, payload(w))
}

pub open spec fn cut_witnessed(data: Seq<u8>, pos: int, id: u8, w: Option<Tag>) -> bool {
    &&& w matches Some(wt)
    &&& tag_wf(wt)
    &&& encodable(wt)
    &&& wt.id() == id
    &&& cut_at(data, pos, payload(wt))
}

/// Where `data` holds from `pos` on what `f` holds, as far as `data` goes,
/// the block `b` that stands in `f` at `off` stands at `pos + off` in
/// `data`, wholly or cut off by the end of `data`.
proof fn lemma_block(data: Seq<u8>, pos: int, f: Seq<u8>, off: int, b: Seq<u8>)
    requires
        0 <= pos <= data.len(),
        0 <= off,
        off + b.len() <= f.len(),
        f.subrange(off, off + b.len()) == b,
        pos + f.len() <= data.len() ==> data.subrange(pos, pos + f.len()) == f,
        pos + f.len() > data.len() ==> data.subrange(pos, data.len() as int) == f.take(
            data.len() - pos,
        ),
    ensures
        pos + off + b.len() <= data.len() ==> bytes_at(data, pos + off, b),
        pos + off <= data.len() < pos + off + b.len() ==> cut_at(data, pos + off, b),
{
    if pos + off + b.len() <= data.len() {
        if pos + f.len() <= data.len() {
            assert(data.subrange(pos + off, pos + off + b.len()) =~= data.subrange(
                pos,
                pos + f.len(),
            ).subrange(off, off + b.len()));
        } else {
            assert(data.subrange(pos + off, pos + off + b.len()) =~= data.subrange(
                pos,
                data.len() as int,
            ).subrange(off, off + b.len()));
            assert(f.take(data.len() - pos).subrange(off, off + b.len()) =~= f.subrange(
                off,
                off + b.len(),
            ));
        }
    } else if pos + off <= data.len() {
        assert(pos + f.len() > data.len());
        assert(data.subrange(pos + off, data.len() as int) =~= data.subrange(
            pos,
            data.len() as int,
        ).subrange(off, data.len() - pos));
        assert(f.take(data.len() - pos).subrange(off, data.len() - pos) =~= f.subrange(
            off,
            off + b.len(),
        ).take(data.len() - pos - off));
    }
}

proof fn lemma_div_gt(n: int, room: int, w: int)
    requires
        0 <= n,
        0 <= room,
        0 < w,
        w * n > room,
    ensures
        n > room / w,
{
    assert(n > room / w) by (nonlinear_arith)
        requires
            0 <= n,
            0 <= room,
            0 < w,
            w * n > room,
    ;
}

pub open spec fn witnessed(data: Seq<u8>, pos: int, id: u8, w: Option<Tag>) -> bool {
    w matches Some(wt) && readable_at(data, pos, id, wt)
}

proof fn lemma_string_unique(a: Seq<char>, b: Seq<char>, data: Seq<u8>, pos: int)
    requires
        string_fits(a),
        string_fits(b),
        bytes_at(data, pos, string_bytes(a)),
        bytes_at(data, pos, string_bytes(b)),
    ensures
        a == b,
{
    assert(string_bytes(a).subrange(0, 2) =~= data.subrange(pos, pos + 2));
    assert(string_bytes(b).subrange(0, 2) =~= data.subrange(pos, pos + 2));
    assert(string_bytes(a).subrange(0, 2) =~= be16(utf8(a).len() as u16));
    assert(string_bytes(b).subrange(0, 2) =~= be16(utf8(b).len() as u16));
    lemma_be16_inj(utf8(a).len() as u16, utf8(b).len() as u16);
    assert(utf8(a) =~= string_bytes(a).subrange(2, string_bytes(a).len() as int));
    assert(utf8(b) =~= string_bytes(b).subrange(2, string_bytes(b).len() as int));
    assert(utf8(a) =~= data.subrange(pos + 2, pos + 2 + utf8(a).len()));
    assert(utf8(b) =~= data.subrange(pos + 2, pos + 2 + utf8(b).len()));
    vstd::utf8::encode_utf8_decode_utf8(a);
    vstd::utf8::encode_utf8_decode_utf8(b);
}

proof fn lemma_div_bound(n: int, room: int, w: int)
    requires
        0 <= n,
        0 <= room,
        0 < w,
        w * n <= room,
    ensures
        n <= room / w,
{
    assert(n <= room / w) by (nonlinear_arith)
        requires
            0 <= n,
            0 <= room,
            0 < w,
            w * n <= room,
    ;
}

/// Where the bytes of a compound's members stand in `data` from `pos`, and
/// the first `k` of them have been read up to `p`, the next member's type
/// id, name and payload stand at `p`.
proof fn lemma_member_at(data: Seq<u8>, pos: int, te: Seq<(String, Tag)>, k: int, p: int)
    requires
        0 <= k < te.len(),
        entries_encodable(te),
        entries_wf(te),
        0 <= pos,
        pos + entries_bytes(te).len() <= data.len(),
        data.subrange(pos, pos + entries_bytes(te).len()) == entries_bytes(te),
        p == pos + entries_bytes(te.take(k)).len(),
    ensures
        data[p] == te[k].1.id(),
        string_fits(te[k].0@),
        tag_wf(te[k].1),
        encodable(te[k].1),
        bytes_at(data, p + 1, string_bytes(te[k].0@)),
        bytes_at(data, p + 1 + string_bytes(te[k].0@).len(), payload(te[k].1)),
        entries_bytes(te.take(k + 1)) == entries_bytes(te.take(k)) + (seq![te[k].1.id()]
            + string_bytes(te[k].0@) + payload(te[k].1)),
{
    let x = seq![te[k].1.id()] + string_bytes(te[k].0@) + payload(te[k].1);
    let a = entries_bytes(te.take(k));
    let all = entries_bytes(te);
    lemma_entries_prefix(te, k + 1);
    assert(te.take(k + 1).drop_last() =~= te.take(k));
    assert(entries_bytes(te.take(k + 1)) == a + x);
    assert(all.take((a.len() + x.len()) as int) == a + x);
    assert(data.subrange(p, p + x.len()) =~= all.subrange(a.len() as int, (a.len() + x.len()) as int));
    assert(all.subrange(a.len() as int, (a.len() + x.len()) as int) =~= (a + x).subrange(
        a.len() as int,
        (a.len() + x.len()) as int,
    ));
    assert((a + x).subrange(a.len() as int, (a.len() + x.len()) as int) =~= x);
    assert(data[p] == x[0]);
    lemma_entries_encodable_index(te, k);
    lemma_entries_wf_index(te, k);
    let sb = string_bytes(te[k].0@);
    assert(data.subrange(p + 1, p + 1 + sb.len()) =~= x.subrange(1, (1 + sb.len()) as int));
    assert(x.subrange(1, (1 + sb.len()) as int) =~= sb);
    assert(data.subrange(p + 1 + sb.len(), p + x.len()) =~= x.subrange(
        (1 + sb.len()) as int,
        x.len() as int,
    ));
    assert(x.subrange((1 + sb.len()) as int, x.len() as int) =~= payload(te[k].1));
}

/// As `lemma_member_at`, where `data` may end anywhere inside the members
/// and the closing sentinel.
proof fn lemma_member_cut(data: Seq<u8>, pos: int, te: Seq<(String, Tag)>, k: int, p: int)
    requires
        0 <= k < te.len(),
        entries_encodable(te),
        entries_wf(te),
        cut_at(data, pos, entries_bytes(te) + seq![0u8]),
        p == pos + entries_bytes(te.take(k)).len(),
    ensures
        p < data.len() ==> data[p] == te[k].1.id(),
        string_fits(te[k].0@),
        tag_wf(te[k].1),
        encodable(te[k].1),
        p + 1 + string_bytes(te[k].0@).len() <= data.len() ==> bytes_at(
            data,
            p + 1,
            string_bytes(te[k].0@),
        ),
        p + 1 <= data.len() < p + 1 + string_bytes(te[k].0@).len() ==> cut_at(
            data,
            p + 1,
            string_bytes(te[k].0@),
        ),
        p + 1 + string_bytes(te[k].0@).len() + payload(te[k].1).len() <= data.len() ==> bytes_at(
            data,
            p + 1 + string_bytes(te[k].0@).len(),
            payload(te[k].1),
        ),
        p + 1 + string_bytes(te[k].0@).len() <= data.len() < p + 1 + string_bytes(te[k].0@).len()
            + payload(te[k].1).len() ==> cut_at(
            data,
            p + 1 + string_bytes(te[k].0@).len(),
            payload(te[k].1),
        ),
        entries_bytes(te.take(k + 1)) == entries_bytes(te.take(k)) + (seq![te[k].1.id()]
            + string_bytes(te[k].0@) + payload(te[k].1)),
{
    let sb = string_bytes(te[k].0@);
    let pc = payload(te[k].1);
    let x = seq![te[k].1.id()] + sb + pc;
    let a = entries_bytes(te.take(k));
    let all = entries_bytes(te);
    let f = all + seq![0u8];
    lemma_entries_prefix(te, k + 1);
    assert(te.take(k + 1).drop_last() =~= te.take(k));
    assert(entries_bytes(te.take(k + 1)) == a + x);
    assert(all.take((a.len() + x.len()) as int) == a + x);
    let off = a.len() as int;
    assert(f.subrange(off, off + x.len()) =~= all.subrange(off, off + x.len()));
    assert(all.subrange(off, off + x.len()) =~= (a + x).subrange(off, off + x.len()));
    assert((a + x).subrange(off, off + x.len()) =~= x);
    assert(f.subrange(off, off + 1) =~= seq![te[k].1.id()]);
    assert(f.subrange(off + 1, off + 1 + sb.len()) =~= f.subrange(off, off + x.len()).subrange(
        1,
        (1 + sb.len()) as int,
    ));
    assert(x.subrange(1, (1 + sb.len()) as int) =~= sb);
    assert(f.subrange(off + 1, off + 1 + sb.len()) =~= sb);
    assert(f.subrange(off + 1 + sb.len(), off + x.len()) =~= f.subrange(off, off + x.len()).subrange(
        (1 + sb.len()) as int,
        x.len() as int,
    ));
    assert(x.subrange((1 + sb.len()) as int, x.len() as int) =~= pc);
    assert(f.subrange(off + 1 + sb.len(), off + x.len()) =~= pc);
    lemma_block(data, pos, f, off, seq![te[k].1.id()]);
    lemma_block(data, pos, f, off + 1, sb);
    lemma_block(data, pos, f, off + 1 + sb.len(), pc);
    if p < data.len() {
        assert(data.subrange(p, p + 1)[0] == data[p]);
    }
    lemma_entries_encodable_index(te, k);
    lemma_entries_wf_index(te, k);
}

/// Reads the payload of a tag of type `id` that starts at `pos`; `w` is a
/// tag that, when it is `readable_at` there, the result must agree with.
#[verifier::rlimit(40)]
fn read_tag_payload(data: &[u8], pos: usize, id: u8, Ghost(w): Ghost<Option<Tag>>) -> (r: Result<
    (Tag, usize),
    DecodeError,
>)
    requires
        pos <= data@.len(),
    ensures
        r matches Ok((t, end)) ==> read_ok(data@, pos as int, end as int, id, t),
        (id == TAG_END || id > TAG_LONG_ARRAY) ==> r == Err::<(Tag, usize), DecodeError>(
            DecodeError::InvalidTagId,
        ),
        id == TAG_LIST && pos + 5 <= data@.len() && data@.subrange(pos + 1, pos + 5) == seq![
            0u8,
            0u8,
            0u8,
            0u8,
        ] ==> (r matches Ok((t, end)) && end == pos + 5 && (t matches Tag::List(v) && v@.len()
            == 0)),
        array_width(id) > 0 && pos + 4 <= data@.len() && (forall|n: u32|
            #![trigger be32(n)]
            be32(n) == data@.subrange(pos as int, pos + 4) ==> array_width(id) * n > data@.len()
                - pos - 4) ==> r == Err::<(Tag, usize), DecodeError>(DecodeError::Truncated),
        scalar_width(id) > 0 ==> (pos + scalar_width(id) <= data@.len() <==> r is Ok),
        scalar_width(id) > 0 && pos + scalar_width(id) > data@.len() ==> r == Err::<
            (Tag, usize),
            DecodeError,
        >(DecodeError::Truncated),
        array_width(id) > 0 && pos + 4 > data@.len() ==> r == Err::<(Tag, usize), DecodeError>(
            DecodeError::Truncated,
        ),
        id == TAG_LIST && pos + 5 > data@.len() ==> r == Err::<(Tag, usize), DecodeError>(
            DecodeError::Truncated,
        ),
        id == TAG_LIST && pos + 5 <= data@.len() && data@[pos as int] == TAG_END && (forall|n: u32|
            #![trigger be32(n)]
            be32(n) == data@.subrange(pos + 1, pos + 5) ==> n > 0) ==> r == Err::<
            (Tag, usize),
            DecodeError,
        >(DecodeError::InvalidTagId),
        id == TAG_LIST && pos + 5 <= data@.len() && data@[pos as int] != TAG_END && (forall|n: u32|
            #![trigger be32(n)]
            be32(n) == data@.subrange(pos + 1, pos + 5) ==> n > data@.len() - pos - 5) ==> r
            == Err::<(Tag, usize), DecodeError>(DecodeError::Truncated),
        witnessed(data@, pos as int, id, w) ==> (r matches Ok((t, end)) && end == pos + payload(
            w->0,
        ).len() && payload(t) == payload(w->0)),
        cut_witnessed(data@, pos as int, id, w) ==> r == Err::<(Tag, usize), DecodeError>(
            DecodeError::Truncated,
        ),
    decreases data@.len() - pos,
{
    let ghost h = witnessed(data@, pos as int, id, w);
    let ghost hc = cut_witnessed(data@, pos as int, id, w);
    let ghost wt = w->0;
    let len = data.len();
    if id == TAG_BYTE {
        let b = match read_u8(data, pos) {
            Ok(b) => b,
            Err(e) => return Err(e),
        };
        proof {
            lemma_sign_casts(b, 0, 0, 0);
        }
        let t = Tag::Byte(#[verifier::truncate] (b as i8));
        assert(data@.subrange(pos as int, pos + 1) =~= payload(t));
        Ok((t, pos + 1))
    } else if id == TAG_SHORT {
        let x = match read_u16(data, pos) {
            Ok(x) => x,
            Err(e) => return Err(e),
        };
        proof {
            lemma_sign_casts(0, x, 0, 0);
        }
        let t = Tag::Short(#[verifier::truncate] (x as i16));
        Ok((t, pos + 2))
    } else if id == TAG_INT || id == TAG_FLOAT {
        let x = match read_u32(data, pos) {
            Ok(x) => x,
            Err(e) => return Err(e),
        };
        proof {
            lemma_sign_casts(0, 0, x, 0);
        }
        let t = if id == TAG_INT {
            Tag::Int(#[verifier::truncate] (x as i32))
        } else {
            Tag::Float(x)
        };
        Ok((t, pos + 4))
    } else if id == TAG_LONG || id == TAG_DOUBLE {
        let x = match read_u64(data, pos) {
            Ok(x) => x,
            Err(e) => return Err(e),
        };
        proof {
            lemma_sign_casts(0, 0, 0, x);
        }
        let t = if id == TAG_LONG {
            Tag::Long(#[verifier::truncate] (x as i64))
        } else {
            Tag::Double(x)
        };
        Ok((t, pos + 8))
    } else if id == TAG_BYTE_ARRAY || id == TAG_INT_ARRAY || id == TAG_LONG_ARRAY {
        let n = match read_u32(data, pos) {
            Ok(n) => n,
            Err(e) => return Err(e),
        };
        let start = pos + 4;
        let width: usize = if id == TAG_BYTE_ARRAY {
            1
        } else if id == TAG_INT_ARRAY {
            4
        } else {
            8
        };
        let ghost wl: int = match wt {
            Tag::ByteArray(v) => v@.len() as int,
            Tag::IntArray(v) => v@.len() as int,
            Tag::LongArray(v) => v@.len() as int,
            _ => 0,
        };
        proof {
            if h {
                match wt {
                    Tag::ByteArray(v) => lemma_array_lens(v@, seq![], seq![]),
                    Tag::IntArray(v) => lemma_array_lens(seq![], v@, seq![]),
                    Tag::LongArray(v) => lemma_array_lens(seq![], seq![], v@),
                    _ => {},
                }
                assert(payload(wt).len() == 4 + width * wl);
                assert(data@.subrange(pos as int, pos + 4) =~= payload(wt).subrange(0, 4));
                assert(payload(wt).subrange(0, 4) =~= be32(wl as u32));
                lemma_be32_inj(n, wl as u32);
                lemma_div_bound(n as int, len - start, width as int);
            }
            if hc {
                match wt {
                    Tag::ByteArray(v) => lemma_array_lens(v@, seq![], seq![]),
                    Tag::IntArray(v) => lemma_array_lens(seq![], v@, seq![]),
                    Tag::LongArray(v) => lemma_array_lens(seq![], seq![], v@),
                    _ => {},
                }
                assert(payload(wt).len() == 4 + width * wl);
                assert(payload(wt).subrange(0, 4) =~= be32(wl as u32));
                lemma_block(data@, pos as int, payload(wt), 0, be32(wl as u32));
                lemma_be32_inj(n, wl as u32);
                lemma_div_gt(n as int, len - start, width as int);
            }
        }
        if n as usize > (len - start) / width {
            return Err(DecodeError::Truncated);
        }
        proof {
            lemma_fits(n as int, len - start, width as int);
        }
        let end = start + width * (n as usize);
        let t = if id == TAG_BYTE_ARRAY {
            Tag::ByteArray(read_i8s(data, start, n as usize))
        } else if id == TAG_INT_ARRAY {
            Tag::IntArray(read_i32s(data, start, n as usize))
        } else {
            Tag::LongArray(read_i64s(data, start, n as usize))
        };
        assert(data@.subrange(pos as int, end as int) =~= data@.subrange(pos as int, start as int)
            + data@.subrange(start as int, end as int));
        proof {
            if h {
                assert(payload(t) == payload(wt));
            }
        }
        Ok((t, end))
    } else if id == TAG_STRING {
        proof {
            if h {
                assert(string_fits(wt->String_0@) && bytes_at(data@, pos as int, string_bytes(wt->String_0@)));
            }
            if hc {
                assert(string_fits(wt->String_0@) && cut_at(data@, pos as int, string_bytes(wt->String_0@)));
            }
        }
        let (s, end) = match read_string(data, pos) {
            Ok(x) => x,
            Err(e) => return Err(e),
        };
        proof {
            if h {
                lemma_string_unique(s@, wt->String_0@, data@, pos as int);
            }
        }
        let t = Tag::String(s);
        assert(payload(t).len() == data@.subrange(pos as int, end as int).len());
        Ok((t, end))
    } else if id == TAG_LIST {
        let ghost tv: Seq<Tag> = if wt is List {
            wt->List_0@
        } else {
            Seq::empty()
        };
        proof {
            if h {
                let pl = payload(wt);
                assert(data@.subrange(pos as int, pos + pl.len()) == pl);
                assert(pl[0] == list_elem_id(tv));
                assert(data@[pos as int] == pl[0]);
                lemma_payloads_len(tv);
                assert(data@.subrange(pos + 5, pos + 5 + payloads(tv).len()) =~= pl.subrange(
                    5,
                    pl.len() as int,
                ));
                assert(pl.subrange(5, pl.len() as int) =~= payloads(tv));
                assert(data@.subrange(pos + 1, pos + 5) =~= pl.subrange(1, 5));
                assert(pl.subrange(1, 5) =~= be32(tv.len() as u32));
                if tv.len() > 0 {
                    assert(list_elem_id(tv) == tv[0].id());
                }
            }
            if hc {
                let pl = payload(wt);
                lemma_payloads_len(tv);
                assert(pl.subrange(0, 1) =~= seq![list_elem_id(tv)]);
                assert(pl.subrange(1, 5) =~= be32(tv.len() as u32));
                assert(pl.subrange(5, pl.len() as int) =~= payloads(tv));
                lemma_block(data@, pos as int, pl, 0, seq![list_elem_id(tv)]);
                lemma_block(data@, pos as int, pl, 1, be32(tv.len() as u32));
                if pos + 1 <= data@.len() {
                    assert(data@.subrange(pos as int, pos + 1)[0] == data@[pos as int]);
                }
                if tv.len() > 0 {
                    assert(list_elem_id(tv) == tv[0].id());
                }
            }
        }
        let elem = match read_u8(data, pos) {
            Ok(b) => b,
            Err(e) => return Err(e),
        };
        let n = match read_u32(data, pos + 1) {
            Ok(n) => n,
            Err(e) => return Err(e),
        };
        proof {
            if data@.subrange(pos + 1, pos + 5) == seq![0u8, 0u8, 0u8, 0u8] {
                lemma_be32_zero(n);
            }
            if h || hc {
                lemma_be32_inj(n, tv.len() as u32);
            }
        }
        let start = pos + 5;
        if elem == TAG_END && n > 0 {
            return Err(DecodeError::InvalidTagId);
        }
        if n as usize > len - start {
            return Err(DecodeError::Truncated);
        }
        let mut v: Vec<Tag> = Vec::new();
        let mut p: usize = start;
        let mut i: usize = 0;
        while i < n as usize
            invariant
                id == TAG_LIST,
                elem == data@[pos as int],
                pos + 5 <= data@.len(),
                n == 0 || elem != TAG_END,
                be32(n) == data@.subrange(pos + 1, pos + 5),
                n <= data@.len() - start,
                data@.subrange(pos + 1, pos + 5) == seq![0u8, 0u8, 0u8, 0u8] ==> n == 0,
                start == pos + 5,
                start <= p <= data@.len(),
                len == data@.len(),
                i <= n,
                v@.len() == i,
                list_wf(v@, elem),
                payloads(v@).len() == p - start,
                !any_empty_list(v@) ==> data@.subrange(start as int, p as int) == payloads(v@),
                h == witnessed(data@, pos as int, id, w),
                wt == w->0,
                h ==> wt is List && tv == wt->List_0@,
                h ==> n == tv.len() && elem == list_elem_id(tv),
                h ==> start + payloads(tv).len() <= data@.len() && data@.subrange(
                    start as int,
                    start + payloads(tv).len(),
                ) == payloads(tv),
                h ==> p == start + payloads(tv.take(i as int)).len() && payloads(v@) == payloads(
                    tv.take(i as int),
                ),
                hc == cut_witnessed(data@, pos as int, id, w),
                hc ==> wt is List && tv == wt->List_0@ && n == tv.len() && elem == list_elem_id(tv),
                hc ==> p == start + payloads(tv.take(i as int)).len() && payloads(v@) == payloads(
                    tv.take(i as int),
                ),
            decreases n - i,
        {
            let ghost wi: Option<Tag> = if h || hc {
                Some(tv[i as int])
            } else {
                None
            };
            proof {
                if h {
                    let a = payloads(tv.take(i as int));
                    let b = payload(tv[i as int]);
                    let all = payloads(tv);
                    lemma_payloads_prefix(tv, i + 1);
                    assert(tv.take(i + 1).drop_last() =~= tv.take(i as int));
                    assert(payloads(tv.take(i + 1)) == a + b);
                    assert(all.take((a.len() + b.len()) as int) == a + b);
                    assert(data@.subrange(p as int, p + b.len()) =~= all.subrange(
                        a.len() as int,
                        (a.len() + b.len()) as int,
                    ));
                    assert(all.subrange(a.len() as int, (a.len() + b.len()) as int) =~= (a + b).subrange(
                        a.len() as int,
                        (a.len() + b.len()) as int,
                    ));
                    assert((a + b).subrange(a.len() as int, (a.len() + b.len()) as int) =~= b);
                    lemma_list_wf_index(tv, list_elem_id(tv), i as int);
                    lemma_all_encodable_index(tv, i as int);
                    assert(witnessed(data@, p as int, elem, wi));
                }
                if hc {
                    let a = payloads(tv.take(i as int));
                    let b = payload(tv[i as int]);
                    let all = payloads(tv);
                    let pl = payload(wt);
                    lemma_payloads_prefix(tv, i + 1);
                    assert(tv.take(i + 1).drop_last() =~= tv.take(i as int));
                    assert(payloads(tv.take(i + 1)) == a + b);
                    assert(all.take((a.len() + b.len()) as int) == a + b);
                    assert(pl.subrange(5, pl.len() as int) =~= all);
                    assert(pl.subrange((5 + a.len()) as int, (5 + a.len() + b.len()) as int) =~= all.subrange(
                        a.len() as int,
                        (a.len() + b.len()) as int,
                    ));
                    assert(all.subrange(a.len() as int, (a.len() + b.len()) as int) =~= (a + b).subrange(
                        a.len() as int,
                        (a.len() + b.len()) as int,
                    ));
                    assert((a + b).subrange(a.len() as int, (a.len() + b.len()) as int) =~= b);
                    lemma_block(data@, pos as int, pl, (5 + a.len()) as int, b);
                    lemma_list_wf_index(tv, list_elem_id(tv), i as int);
                    lemma_all_encodable_index(tv, i as int);
                    if p + b.len() <= data@.len() {
                        assert(witnessed(data@, p as int, elem, wi));
                    } else {
                        assert(cut_witnessed(data@, p as int, elem, wi));
                    }
                }
            }
            let (t, e) = match read_tag_payload(data, p, elem, Ghost(wi)) {
                Ok(x) => x,
                Err(e) => return Err(e),
            };
            let ghost prev = v@;
            v.push(t);
            assert(v@.drop_last() =~= prev);
            assert(payloads(v@) == payloads(prev) + payload(t));
            assert(data@.subrange(start as int, e as int) =~= data@.subrange(start as int, p as int)
                + data@.subrange(p as int, e as int));
            proof {
                if h || hc {
                    assert(tv.take(i + 1).drop_last() =~= tv.take(i as int));
                }
            }
            p = e;
            i = i + 1;
        }
        proof {
            if v@.len() > 0 {
                lemma_list_wf_index(v@, elem, 0);
            }
            if h || hc {
                assert(tv.take(i as int) =~= tv);
            }
        }
        let t = Tag::List(v);
        assert(data@.subrange(pos as int, p as int) =~= seq![data@[pos as int]] + data@.subrange(
            pos + 1,
            start as int,
        ) + data@.subrange(start as int, p as int));
        proof {
            if h {
                assert(payload(t) == payload(wt));
            }
        }
        Ok((t, p))
    } else if id == TAG_COMPOUND {
        let ghost te: Seq<(String, Tag)> = if wt is Compound {
            wt->Compound_0.tags@
        } else {
            Seq::empty()
        };
        proof {
            if h {
                let pl = payload(wt);
                assert(data@.subrange(pos as int, pos + pl.len()) == pl);
                assert(data@.subrange(pos as int, pos + entries_bytes(te).len()) =~= pl.subrange(
                    0,
                    entries_bytes(te).len() as int,
                ));
                assert(pl.subrange(0, entries_bytes(te).len() as int) =~= entries_bytes(te));
                assert(data@[pos + entries_bytes(te).len()] == pl[entries_bytes(te).len() as int]);
                assert(te.take(0) =~= Seq::<(String, Tag)>::empty());
            }
        }
        let mut c = CompoundTag::new();
        let mut p: usize = pos;
        let ghost mut gi: int = 0;
        loop
            invariant
                id == TAG_COMPOUND,
                pos <= p <= data@.len(),
                len == data@.len(),
                c.wf(),
                c.name is None,
                entries_wf(c.tags@),
                entries_bytes(c.tags@).len() == p - pos,
                !entries_any_empty_list(c.tags@) ==> data@.subrange(pos as int, p as int)
                    == entries_bytes(c.tags@),
                h == witnessed(data@, pos as int, id, w),
                wt == w->0,
                hc == cut_witnessed(data@, pos as int, id, w),
                hc ==> cut_at(data@, pos as int, entries_bytes(te) + seq![0u8]),
                (h || hc) ==> wt is Compound && te == wt->Compound_0.tags@,
                (h || hc) ==> keys_unique(te) && entries_wf(te) && entries_encodable(te),
                h ==> pos + entries_bytes(te).len() + 1 <= data@.len() && data@.subrange(
                    pos as int,
                    pos + entries_bytes(te).len(),
                ) == entries_bytes(te) && data@[pos + entries_bytes(te).len()] == 0,
                (h || hc) ==> 0 <= gi <= te.len() && c.tags@.len() == gi,
                (h || hc) ==> p == pos + entries_bytes(te.take(gi)).len() && entries_bytes(c.tags@)
                    == entries_bytes(te.take(gi)),
                (h || hc) ==> forall|j: int| 0 <= j < gi ==> #[trigger] c.tags@[j].0@ == te[j].0@,
            decreases data@.len() - p,
        {
            proof {
                if h {
                    if gi == te.len() {
                        assert(te.take(gi) =~= te);
                    } else {
                        lemma_member_at(data@, pos as int, te, gi, p as int);
                    }
                }
                if hc {
                    if gi == te.len() {
                        assert(te.take(gi) =~= te);
                    } else {
                        lemma_member_cut(data@, pos as int, te, gi, p as int);
                    }
                }
            }
            let cid = match read_u8(data, p) {
                Ok(b) => b,
                Err(e) => return Err(e),
            };
            if cid == TAG_END {
                assert(data@.subrange(pos as int, p + 1) =~= data@.subrange(pos as int, p as int)
                    + seq![0u8]);
                let t = Tag::Compound(c);
                proof {
                    if h {
                        assert(payload(t) == payload(wt));
                    }
                }
                return Ok((t, p + 1));
            }
            let (name, q) = match read_string(data, p + 1) {
                Ok(x) => x,
                Err(e) => return Err(e),
            };
            proof {
                if h || hc {
                    lemma_string_unique(name@, te[gi].0@, data@, p + 1);
                    assert forall|j: int| 0 <= j < c.tags@.len() implies #[trigger] c.tags@[j].0@
                        != name@ by {
                        assert(te[j].0@ != te[gi].0@);
                    }
                }
            }
            if c.position(name.as_str()).is_some() {
                return Err(DecodeError::DuplicateKey);
            }
            let ghost wc: Option<Tag> = if h || hc {
                Some(te[gi].1)
            } else {
                None
            };
            proof {
                if h {
                    assert(witnessed(data@, q as int, cid, wc));
                }
                if hc {
                    if q + payload(te[gi].1).len() <= data@.len() {
                        assert(witnessed(data@, q as int, cid, wc));
                    } else {
                        assert(cut_witnessed(data@, q as int, cid, wc));
                    }
                }
            }
            let (t, e) = match read_tag_payload(data, q, cid, Ghost(wc)) {
                Ok(x) => x,
                Err(e) => return Err(e),
            };
            let ghost prev = c.tags@;
            let ghost nm = name@;
            c.tags.push((name, t));
            proof {
                assert(c.tags@.drop_last() =~= prev);
                assert(entries_bytes(c.tags@) == entries_bytes(prev) + (seq![t.id()]
                    + string_bytes(nm) + payload(t)));
                assert forall|a: int, b: int| 0 <= a < b < c.tags@.len() implies
                    #[trigger] c.tags@[a].0@ != #[trigger] c.tags@[b].0@ by {
                    if b < prev.len() {
                        assert(prev[a].0@ != prev[b].0@);
                    } else {
                        assert(prev[a].0@ != nm);
                    }
                }
                assert(data@.subrange(pos as int, e as int) =~= data@.subrange(pos as int, p as int)
                    + (seq![data@[p as int]] + data@.subrange(p + 1, q as int) + data@.subrange(
                    q as int,
                    e as int,
                )));
                if h || hc {
                    assert(entries_bytes(c.tags@) == entries_bytes(te.take(gi + 1)));
                    assert forall|j: int| 0 <= j < gi + 1 implies #[trigger] c.tags@[j].0@
                        == te[j].0@ by {
                        if j < gi {
                            assert(c.tags@[j] == prev[j]);
                        }
                    }
                }
                gi = gi + 1;
            }
            p = e;
        }
    } else {
        Err(DecodeError::InvalidTagId)
    }
}

/// Reads the payload of a tag of type `id` that starts at `pos`, and gives
/// where it ends.
///
/// The tag read is of kind `id`; its lists are of one kind and its
/// compounds' names distinct; written back it takes exactly the bytes read,
/// and unless it holds an empty list (whose declared element type is not
/// kept) it is written back as exactly those bytes. Where the payload of a
/// well-formed, encodable tag of kind `id` stands at `pos`, reading
/// succeeds, with a tag that is written back as those same bytes.
pub fn read_payload(data: &[u8], pos: usize, id: u8) -> (r: Result<(Tag, usize), DecodeError>)
    requires
        pos <= data@.len(),
    ensures
        r matches Ok((t, end)) ==> read_ok(data@, pos as int, end as int, id, t),
        (id == TAG_END || id > TAG_LONG_ARRAY) ==> r == Err::<(Tag, usize), DecodeError>(
            DecodeError::InvalidTagId,
        ),
        id == TAG_LIST && pos + 5 <= data@.len() && data@.subrange(pos + 1, pos + 5) == seq![
            0u8,
            0u8,
            0u8,
            0u8,
        ] ==> (r matches Ok((t, end)) && end == pos + 5 && (t matches Tag::List(v) && v@.len()
            == 0)),
        array_width(id) > 0 && pos + 4 <= data@.len() && (forall|n: u32|
            #![trigger be32(n)]
            be32(n) == data@.subrange(pos as int, pos + 4) ==> array_width(id) * n > data@.len()
                - pos - 4) ==> r == Err::<(Tag, usize), DecodeError>(DecodeError::Truncated),
        scalar_width(id) > 0 ==> (pos + scalar_width(id) <= data@.len() <==> r is Ok),
        scalar_width(id) > 0 && pos + scalar_width(id) > data@.len() ==> r == Err::<
            (Tag, usize),
            DecodeError,
        >(DecodeError::Truncated),
        array_width(id) > 0 && pos + 4 > data@.len() ==> r == Err::<(Tag, usize), DecodeError>(
            DecodeError::Truncated,
        ),
        id == TAG_LIST && pos + 5 > data@.len() ==> r == Err::<(Tag, usize), DecodeError>(
            DecodeError::Truncated,
        ),
        id == TAG_LIST && pos + 5 <= data@.len() && data@[pos as int] == TAG_END && (forall|n: u32|
            #![trigger be32(n)]
            be32(n) == data@.subrange(pos + 1, pos + 5) ==> n > 0) ==> r == Err::<
            (Tag, usize),
            DecodeError,
        >(DecodeError::InvalidTagId),
        id == TAG_LIST && pos + 5 <= data@.len() && data@[pos as int] != TAG_END && (forall|n: u32|
            #![trigger be32(n)]
            be32(n) == data@.subrange(pos + 1, pos + 5) ==> n > data@.len() - pos - 5) ==> r
            == Err::<(Tag, usize), DecodeError>(DecodeError::Truncated),
        (exists|w: Tag| readable_at(data@, pos as int, id, w)) ==> (r matches Ok((t, end))
            && bytes_at(data@, pos as int, payload(t)) && end == pos + payload(t).len()),
        (exists|w: Tag| cut_readable_at(data@, pos as int, id, w)) && !(exists|w: Tag|
            readable_at(data@, pos as int, id, w)) ==> r == Err::<(Tag, usize), DecodeError>(
            DecodeError::Truncated,
        ),
{
    let ghost w = if exists|w: Tag| readable_at(data@, pos as int, id, w) {
        Some(choose|w: Tag| readable_at(data@, pos as int, id, w))
    } else if exists|w: Tag| cut_readable_at(data@, pos as int, id, w) {
        Some(choose|w: Tag| cut_readable_at(data@, pos as int, id, w))
    } else {
        None
    };
    let r = read_tag_payload(data, pos, id, Ghost(w));
    proof {
        if exists|w: Tag| readable_at(data@, pos as int, id, w) {
            assert(witnessed(data@, pos as int, id, w));
        } else if w is Some {
            assert(cut_witnessed(data@, pos as int, id, w));
        }
    }
    r
}

/// What `read_compound_tag` promises of a document that it read from the
/// start of `data`.
pub open spec fn document_read_ok(data: Seq<u8>, c: CompoundTag) -> bool {
    &&& c.wf()
    &&& tag_wf(Tag::Compound(c))
    &&& c.name matches Some(n) ==> n@.len() > 0
    &&& document_bytes(c).len() <= data.len()
    &&& !has_empty_list(Tag::Compound(c)) ==> data.take(document_bytes(c).len() as int)
        == document_bytes(c)
}

/// A document that must be read back from the start of `data`: well
/// formed, encodable, and written there.
pub open spec fn document_at_start(data: Seq<u8>, c: CompoundTag) -> bool {
    &&& tag_wf(Tag::Compound(c))
    &&& document_encodable(c)
    &&& document_bytes(c).len() <= data.len()
    &&& data.take(document_bytes(c).len() as int) == document_bytes(c)
}

/// `data` is a proper prefix of what `write_compound_tag` writes for a
/// well-formed, encodable document.
pub open spec fn document_cut(data: Seq<u8>, c: CompoundTag) -> bool {
    &&& tag_wf(Tag::Compound(c))
    &&& document_encodable(c)
    &&& cut_at(data, 0, document_bytes(c))
}

/// What `read_compound_tag` promises of its outcome `r` on `data`.
pub open spec fn read_document_post(data: Seq<u8>, r: Result<CompoundTag, DecodeError>) -> bool {
    &&& r matches Ok(c) ==> document_read_ok(data, c)
    &&& (exists|c: CompoundTag| document_at_start(data, c)) ==> (r matches Ok(c2)
        && document_bytes(c2).len() <= data.len() && data.take(document_bytes(c2).len() as int)
        == document_bytes(c2))
    &&& (exists|c: CompoundTag| document_cut(data, c)) && !(exists|c: CompoundTag|
        document_at_start(data, c)) ==> r == Err::<CompoundTag, DecodeError>(DecodeError::Truncated)
    &&& data.len() == 0 ==> r == Err::<CompoundTag, DecodeError>(DecodeError::Truncated)
    &&& data.len() > 0 && data[0] != TAG_COMPOUND ==> r == Err::<CompoundTag, DecodeError>(
        DecodeError::RootNotCompound,
    )
}

/// Reads one document from the start of `data`: the compound type id, the
/// root name, then the compound. Bytes after the document are left alone.
///
/// An empty root name is read as no name. What is read obeys
/// `document_read_ok`: written back with `write_compound_tag` it takes as
/// many bytes as were read, and unless it holds an empty list it gives
/// those very bytes. Where the input starts with the bytes that
/// `write_compound_tag` writes for a well-formed document, reading succeeds
/// and gives a document that is written back as those same bytes.
pub fn read_compound_tag(data: &[u8]) -> (r: Result<CompoundTag, DecodeError>)
    ensures
        read_document_post(data@, r),
{
    let ghost ex = exists|c: CompoundTag| document_at_start(data@, c);
    let ghost wc = choose|c: CompoundTag| document_at_start(data@, c);
    let ghost wn = wc.name_view();
    let ghost cx = !ex && exists|c: CompoundTag| document_cut(data@, c);
    let ghost cc = choose|c: CompoundTag| document_cut(data@, c);
    let ghost cn = cc.name_view();
    proof {
        if cx {
            let d = document_bytes(cc);
            assert(d.subrange(0, 1) =~= seq![TAG_COMPOUND]);
            assert(d.subrange(1, (1 + string_bytes(cn).len()) as int) =~= string_bytes(cn));
            assert(cut_at(data@, 0, d));
            assert(data@.subrange(0, data@.len() as int) =~= data@);
            lemma_block(data@, 0, d, 0, seq![TAG_COMPOUND]);
            lemma_block(data@, 0, d, 1, string_bytes(cn));
            if data@.len() >= 1 {
                assert(data@.subrange(0, 1)[0] == data@[0]);
            }
        }
        if ex {
            let d = document_bytes(wc);
            assert(data@[0] == d[0]);
            assert(data@.subrange(1, (1 + string_bytes(wn).len()) as int) =~= d.subrange(
                1,
                (1 + string_bytes(wn).len()) as int,
            ));
            assert(d.subrange(1, (1 + string_bytes(wn).len()) as int) =~= string_bytes(wn));
        }
    }
    let id = match read_u8(data, 0) {
        Ok(b) => b,
        Err(e) => return Err(e),
    };
    if id != TAG_COMPOUND {
        return Err(DecodeError::RootNotCompound);
    }
    let (name, p) = match read_string(data, 1) {
        Ok(x) => x,
        Err(e) => return Err(e),
    };
    proof {
        if cx {
            let d = document_bytes(cc);
            lemma_string_unique(name@, cn, data@, 1);
            let ct = Tag::Compound(cc);
            assert(d.subrange(p as int, d.len() as int) =~= payload(ct));
            lemma_block(data@, 0, d, p as int, payload(ct));
        }
        if ex {
            let d = document_bytes(wc);
            lemma_string_unique(name@, wn, data@, 1);
            let wt = Tag::Compound(wc);
            assert(data@.subrange(p as int, p + payload(wt).len()) =~= d.subrange(
                p as int,
                d.len() as int,
            ));
            assert(d.subrange(p as int, d.len() as int) =~= payload(wt));
            assert(readable_at(data@, p as int, TAG_COMPOUND, wt));
        }
    }
    let ghost pw: Option<Tag> = if ex {
        Some(Tag::Compound(wc))
    } else if cx {
        Some(Tag::Compound(cc))
    } else {
        None
    };
    let (t, end) = match read_tag_payload(data, p, TAG_COMPOUND, Ghost(pw)) {
        Ok(x) => x,
        Err(e) => return Err(e),
    };
    match t {
        Tag::Compound(mut c) => {
            let ghost nm = name@;
            c.name = if name.as_str().is_empty() {
                None
            } else {
                Some(name)
            };
            proof {
                if nm.len() == 0 {
                    assert(nm =~= Seq::<char>::empty());
                }
                assert(c.name_view() == nm);
                assert(data@.take(end as int) =~= seq![data@[0]] + data@.subrange(1, p as int)
                    + data@.subrange(p as int, end as int));
            }
            Ok(c)
        },
        _ => Err(DecodeError::InvalidTagId),
    }
}

/// Reads a document from a gzip stream: `Decompression` if flate2 finds
/// the stream malformed, otherwise what `read_compound_tag` gives on the
/// decompressed bytes.
pub fn read_gzip_compound_tag(data: &[u8]) -> (r: Result<CompoundTag, DecodeError>)
    ensures
        gunzip_result(data@) is None ==> r == Err::<CompoundTag, DecodeError>(DecodeError::Decompression),
        gunzip_result(data@) matches Some(b) ==> read_document_post(b, r),
{
    match gunzip(data) {
        Some(v) => read_compound_tag(v.as_slice()),
        None => Err(DecodeError::Decompression),
    }
}

/// Reads a document from a zlib stream, as `read_gzip_compound_tag` does for
/// gzip.
pub fn read_zlib_compound_tag(data: &[u8]) -> (r: Result<CompoundTag, DecodeError>)
    ensures
        unzlib_result(data@) is None ==> r == Err::<CompoundTag, DecodeError>(DecodeError::Decompression),
        unzlib_result(data@) matches Some(b) ==> read_document_post(b, r),
{
    match unzlib(data) {
        Some(v) => read_compound_tag(v.as_slice()),
        None => Err(DecodeError::Decompression),
    }
}

} // verus!
