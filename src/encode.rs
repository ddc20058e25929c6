//! Writing documents into an in-memory byte sink.

use vstd::prelude::*;
use crate::compress::{gzip, gzip_result, zlib, zlib_result};
use crate::tag::{CompoundTag, Tag, TAG_COMPOUND, TAG_END};
use crate::wire::{
    all_encodable, be16, be32, be64, document_bytes, document_encodable, encodable,
    entries_bytes, entries_encodable, i32s_bytes, i64s_bytes, i8s_bytes, payload, payloads,
    string_bytes, string_fits, lemma_all_encodable_index, lemma_entries_encodable_index,
    MAX_ARRAY_LEN, MAX_STRING_BYTES,
};

verus! {

broadcast use vstd::std_specs::vec::group_vec_axioms;

/// Why a document could not be written.
#[derive(Debug, PartialEq, Eq, Structural)]
pub enum EncodeError {
    /// A string is longer than 65535 bytes, or an array or list holds more
    /// than `u32::MAX` elements.
    SizeLimit,
    /// The compression stream reported a failure.
    Compression,
}

pub fn push_u16(out: &mut Vec<u8>, x: u16)
    ensures
        final(out)@ == old(out)@ + be16(x),
{
    out.push((x >> 8u16) as u8);
    out.push(x as u8);
    assert(out@ =~= old(out)@ + be16(x));
}

pub fn push_u32(out: &mut Vec<u8>, x: u32)
    ensures
        final(out)@ == old(out)@ + be32(x),
{
    out.push((x >> 24u32) as u8);
    out.push((x >> 16u32) as u8);
    out.push((x >> 8u32) as u8);
    out.push(x as u8);
    assert(out@ =~= old(out)@ + be32(x));
}

pub fn push_u64(out: &mut Vec<u8>, x: u64)
    ensures
        final(out)@ == old(out)@ + be64(x),
{
    out.push((x >> 56u64) as u8);
    out.push((x >> 48u64) as u8);
    out.push((x >> 40u64) as u8);
    out.push((x >> 32u64) as u8);
    out.push((x >> 24u64) as u8);
    out.push((x >> 16u64) as u8);
    out.push((x >> 8u64) as u8);
    out.push(x as u8);
    assert(out@ =~= old(out)@ + be64(x));
}

pub(crate) fn push_bytes(out: &mut Vec<u8>, b: &[u8])
    ensures
        final(out)@ == old(out)@ + b@,
{
    let mut i: usize = 0;
    while i < b.len()
        invariant
            i <= b@.len(),
            out@ == old(out)@ + b@.take(i as int),
        decreases b@.len() - i,
    {
        out.push(b[i]);
        i = i + 1;
        assert(out@ =~= old(out)@ + b@.take(i as int));
    }
    assert(b@.take(i as int) =~= b@);
}

/// Writes a string as its 16-bit big-endian byte count and its UTF-8 bytes.
/// A string longer than 65535 bytes is refused and nothing is written.
pub fn write_string(out: &mut Vec<u8>, s: &str) -> (r: Result<(), EncodeError>)
    ensures
        r is Ok <==> string_fits(s@),
        r is Ok ==> final(out)@ == old(out)@ + string_bytes(s@),
        r is Err ==> r == Err::<(), EncodeError>(EncodeError::SizeLimit) && final(out)@ == old(out)@,
{
    let b = s.as_bytes();
    if b.len() > MAX_STRING_BYTES {
        return Err(EncodeError::SizeLimit);
    }
    push_u16(out, b.len() as u16);
    push_bytes(out, b);
    Ok(())
}

fn write_i8s(out: &mut Vec<u8>, v: &Vec<i8>)
    ensures
        final(out)@ == old(out)@ + i8s_bytes(v@),
{
    let mut i: usize = 0;
    while i < v.len()
        invariant
            i <= v@.len(),
            out@ == old(out)@ + i8s_bytes(v@.take(i as int)),
        decreases v@.len() - i,
    {
        out.push(#[verifier::truncate] (v[i] as u8));
        assert(v@.take(i + 1).drop_last() =~= v@.take(i as int));
        i = i + 1;
        assert(out@ =~= old(out)@ + i8s_bytes(v@.take(i as int)));
    }
    assert(v@.take(i as int) =~= v@);
}

fn write_i32s(out: &mut Vec<u8>, v: &Vec<i32>)
    ensures
        final(out)@ == old(out)@ + i32s_bytes(v@),
{
    let mut i: usize = 0;
    while i < v.len()
        invariant
            i <= v@.len(),
            out@ == old(out)@ + i32s_bytes(v@.take(i as int)),
        decreases v@.len() - i,
    {
        push_u32(out, #[verifier::truncate] (v[i] as u32));
        assert(v@.take(i + 1).drop_last() =~= v@.take(i as int));
        i = i + 1;
        assert(out@ =~= old(out)@ + i32s_bytes(v@.take(i as int)));
    }
    assert(v@.take(i as int) =~= v@);
}

fn write_i64s(out: &mut Vec<u8>, v: &Vec<i64>)
    ensures
        final(out)@ == old(out)@ + i64s_bytes(v@),
{
    let mut i: usize = 0;
    while i < v.len()
        invariant
            i <= v@.len(),
            out@ == old(out)@ + i64s_bytes(v@.take(i as int)),
        decreases v@.len() - i,
    {
        push_u64(out, #[verifier::truncate] (v[i] as u64));
        assert(v@.take(i + 1).drop_last() =~= v@.take(i as int));
        i = i + 1;
        assert(out@ =~= old(out)@ + i64s_bytes(v@.take(i as int)));
    }
    assert(v@.take(i as int) =~= v@);
}

/// Writes the payload of a tag: what follows its type id and name.
/// Lists are written with the first element's type id and are not checked
/// for being of one kind.
pub fn write_tag(out: &mut Vec<u8>, t: &Tag) -> (r: Result<(), EncodeError>)
    ensures
        r is Ok <==> encodable(*t),
        r is Ok ==> final(out)@ == old(out)@ + payload(*t),
        r is Err ==> r == Err::<(), EncodeError>(EncodeError::SizeLimit),
    decreases t,
{
    match t {
        Tag::Byte(v) => {
            out.push(#[verifier::truncate] (*v as u8));
            assert(out@ =~= old(out)@ + payload(*t));
        },
        Tag::Short(v) => push_u16(out, #[verifier::truncate] (*v as u16)),
        Tag::Int(v) => push_u32(out, #[verifier::truncate] (*v as u32)),
        Tag::Long(v) => push_u64(out, #[verifier::truncate] (*v as u64)),
        Tag::Float(b) => push_u32(out, *b),
        Tag::Double(b) => push_u64(out, *b),
        Tag::ByteArray(v) => {
            if v.len() > MAX_ARRAY_LEN {
                return Err(EncodeError::SizeLimit);
            }
            push_u32(out, v.len() as u32);
            write_i8s(out, v);
            assert(out@ =~= old(out)@ + payload(*t));
        },
        Tag::String(s) => {
            write_string(out, s.as_str())?;
        },
        Tag::List(v) => {
            if v.len() > MAX_ARRAY_LEN {
                return Err(EncodeError::SizeLimit);
            }
            if v.len() > 0 {
                out.push(v[0].type_id());
            } else {
                out.push(TAG_END);
            }
            push_u32(out, v.len() as u32);
            let ghost start = out@;
            let mut i: usize = 0;
            while i < v.len()
                invariant
                    *t == Tag::List(*v),
                    i <= v@.len(),
                    out@ == start + payloads(v@.take(i as int)),
                    all_encodable(v@.take(i as int)),
                decreases v@.len() - i,
            {
                proof {
                    assert(decreases_to!(*t => (*t)->List_0));
                    assert(decreases_to!(*v => v[i as int]));
                }
                let w = write_tag(out, &v[i]);
                if w.is_err() {
                    proof {
                        if all_encodable(v@) {
                            lemma_all_encodable_index(v@, i as int);
                        }
                    }
                    return w;
                }
                assert(v@.take(i + 1).drop_last() =~= v@.take(i as int));
                i = i + 1;
            }
            assert(v@.take(i as int) =~= v@);
            assert(out@ =~= old(out)@ + payload(*t));
        },
        Tag::Compound(c) => {
            let ghost start = out@;
            let mut i: usize = 0;
            while i < c.tags.len()
                invariant
                    *t == Tag::Compound(*c),
                    i <= c.tags@.len(),
                    out@ == start + entries_bytes(c.tags@.take(i as int)),
                    entries_encodable(c.tags@.take(i as int)),
                decreases c.tags@.len() - i,
            {
                let entry = &c.tags[i];
                let ghost before = out@;
                out.push(entry.1.type_id());
                let ws = write_string(out, entry.0.as_str());
                if ws.is_err() {
                    proof {
                        if entries_encodable(c.tags@) {
                            lemma_entries_encodable_index(c.tags@, i as int);
                        }
                    }
                    return ws;
                }
                proof {
                    assert(decreases_to!(*t => (*t)->Compound_0));
                    assert(decreases_to!(*c => c.tags));
                    assert(decreases_to!(c.tags => c.tags[i as int]));
                    assert(decreases_to!(c.tags[i as int] => c.tags[i as int].1));
                }
                let w = write_tag(out, &entry.1);
                if w.is_err() {
                    proof {
                        if entries_encodable(c.tags@) {
                            lemma_entries_encodable_index(c.tags@, i as int);
                        }
                    }
                    return w;
                }
                assert(c.tags@.take(i + 1).drop_last() =~= c.tags@.take(i as int));
                assert(out@ =~= before + (seq![entry.1.id()] + string_bytes(entry.0@) + payload(
                    entry.1,
                )));
                i = i + 1;
            }
            assert(c.tags@.take(i as int) =~= c.tags@);
            out.push(TAG_END);
            assert(out@ =~= old(out)@ + payload(*t));
        },
        Tag::IntArray(v) => {
            if v.len() > MAX_ARRAY_LEN {
                return Err(EncodeError::SizeLimit);
            }
            push_u32(out, v.len() as u32);
            write_i32s(out, v);
            assert(out@ =~= old(out)@ + payload(*t));
        },
        Tag::LongArray(v) => {
            if v.len() > MAX_ARRAY_LEN {
                return Err(EncodeError::SizeLimit);
            }
            push_u32(out, v.len() as u32);
            write_i64s(out, v);
            assert(out@ =~= old(out)@ + payload(*t));
        },
    }
    Ok(())
}

/// Writes a whole document: the compound type id, the root name (empty
/// when the root has none), then the compound's members and the closing
/// sentinel.
///
/// Fails with `SizeLimit`, exactly when some string or array of the
/// document is too long for its prefix; the writer is then left as it was.
pub fn write_compound_tag(writer: &mut Vec<u8>, compound_tag: CompoundTag) -> (r: Result<
    (),
    EncodeError,
>)
    ensures
        r is Ok <==> document_encodable(compound_tag),
        r is Ok ==> final(writer)@ == old(writer)@ + document_bytes(compound_tag),
        r is Err ==> r == Err::<(), EncodeError>(EncodeError::SizeLimit) && final(writer)@ == old(
            writer,
        )@,
{
    let mut buf: Vec<u8> = Vec::new();
    buf.push(TAG_COMPOUND);
    match &compound_tag.name {
        Some(n) => write_string(&mut buf, n.as_str())?,
        None => {
            proof {
                reveal_strlit("");
            }
            write_string(&mut buf, "")?;
        },
    }
    let tag = Tag::Compound(compound_tag);
    let w = write_tag(&mut buf, &tag);
    if w.is_err() {
        return w;
    }
    assert(buf@ =~= document_bytes(compound_tag));
    push_bytes(writer, buf.as_slice());
    Ok(())
}

/// Writes a document as a gzip stream: `SizeLimit` exactly when the
/// document cannot be encoded; otherwise the outcome of compressing its
/// bytes: the stream is appended, or `Compression` where flate2 reports an
/// error. Nothing is written on failure.
pub fn write_gzip_compound_tag(writer: &mut Vec<u8>, compound_tag: CompoundTag) -> (r: Result<
    (),
    EncodeError,
>)
    ensures
        !document_encodable(compound_tag) ==> r == Err::<(), EncodeError>(EncodeError::SizeLimit),
        document_encodable(compound_tag) ==> match gzip_result(document_bytes(compound_tag)) {
            Some(z) => r is Ok && final(writer)@ == old(writer)@ + z,
            None => r == Err::<(), EncodeError>(EncodeError::Compression),
        },
        r is Err ==> final(writer)@ == old(writer)@,
{
    let ghost doc = document_bytes(compound_tag);
    let mut buf: Vec<u8> = Vec::new();
    match write_compound_tag(&mut buf, compound_tag) {
        Ok(()) => {},
        Err(e) => return Err(e),
    }
    assert(buf@ =~= doc);
    match gzip(buf.as_slice()) {
        Some(z) => {
            push_bytes(writer, z.as_slice());
            Ok(())
        },
        None => Err(EncodeError::Compression),
    }
}

/// Writes a document as a zlib stream, as `write_gzip_compound_tag` does
/// for gzip.
pub fn write_zlib_compound_tag(writer: &mut Vec<u8>, compound_tag: CompoundTag) -> (r: Result<
    (),
    EncodeError,
>)
    ensures
        !document_encodable(compound_tag) ==> r == Err::<(), EncodeError>(EncodeError::SizeLimit),
        document_encodable(compound_tag) ==> match zlib_result(document_bytes(compound_tag)) {
            Some(z) => r is Ok && final(writer)@ == old(writer)@ + z,
            None => r == Err::<(), EncodeError>(EncodeError::Compression),
        },
        r is Err ==> final(writer)@ == old(writer)@,
{
    let ghost doc = document_bytes(compound_tag);
    let mut buf: Vec<u8> = Vec::new();
    match write_compound_tag(&mut buf, compound_tag) {
        Ok(()) => {},
        Err(e) => return Err(e),
    }
    assert(buf@ =~= doc);
    match zlib(buf.as_slice()) {
        Some(z) => {
            push_bytes(writer, z.as_slice());
            Ok(())
        },
        None => Err(EncodeError::Compression),
    }
}

} // verus!
