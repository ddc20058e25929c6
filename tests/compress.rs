use nbt::decode::{read_gzip_compound_tag, read_zlib_compound_tag, DecodeError};
use nbt::encode::{write_compound_tag, write_gzip_compound_tag, write_zlib_compound_tag, EncodeError};
use nbt::{CompoundTag, Tag};
use std::io::Read;

fn sample() -> CompoundTag {
    let mut c = CompoundTag::named("hello world");
    c.insert_str("name", "Bananrama");
    c.insert("n", Tag::IntArray(vec![1, 2, 3]));
    c
}

#[test]
fn gzip_decompresses_to_plain_encoding() {
    let mut plain = Vec::new();
    write_compound_tag(&mut plain, sample()).unwrap();
    let mut zipped = Vec::new();
    write_gzip_compound_tag(&mut zipped, sample()).unwrap();
    assert_eq!(&zipped[0..2], &[0x1f, 0x8b]);
    assert_ne!(zipped, plain);
    let mut out = Vec::new();
    flate2::read::GzDecoder::new(&zipped[..]).read_to_end(&mut out).unwrap();
    assert_eq!(out, plain);
}

#[test]
fn zlib_decompresses_to_plain_encoding() {
    let mut plain = Vec::new();
    write_compound_tag(&mut plain, sample()).unwrap();
    let mut zipped = Vec::new();
    write_zlib_compound_tag(&mut zipped, sample()).unwrap();
    assert_eq!(zipped[0], 0x78);
    assert_ne!(zipped, plain);
    let mut out = Vec::new();
    flate2::read::ZlibDecoder::new(&zipped[..]).read_to_end(&mut out).unwrap();
    assert_eq!(out, plain);
}

#[test]
fn gzip_round_trip() {
    let mut zipped = Vec::new();
    write_gzip_compound_tag(&mut zipped, sample()).unwrap();
    assert_eq!(read_gzip_compound_tag(&zipped).unwrap(), sample());
}

#[test]
fn zlib_round_trip() {
    let mut zipped = Vec::new();
    write_zlib_compound_tag(&mut zipped, sample()).unwrap();
    assert_eq!(read_zlib_compound_tag(&zipped).unwrap(), sample());
}

#[test]
fn recompression_is_stable() {
    let mut a = Vec::new();
    write_gzip_compound_tag(&mut a, sample()).unwrap();
    let mut b = Vec::new();
    write_gzip_compound_tag(&mut b, sample()).unwrap();
    assert_eq!(a, b);
}

#[test]
fn malformed_stream_is_refused() {
    assert_eq!(read_gzip_compound_tag(&[1, 2, 3, 4]), Err(DecodeError::Decompression));
    assert_eq!(read_zlib_compound_tag(&[1, 2, 3, 4]), Err(DecodeError::Decompression));
}

#[test]
fn oversized_document_writes_nothing_compressed() {
    let mut c = CompoundTag::new();
    c.insert("s", Tag::String("x".repeat(70000)));
    let mut out = vec![7];
    assert_eq!(write_gzip_compound_tag(&mut out, c), Err(EncodeError::SizeLimit));
    assert_eq!(out, vec![7]);
}
