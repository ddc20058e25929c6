use nbt::decode::{read_compound_tag, read_payload, read_string, read_u16, read_u32, read_u64, DecodeError};
use nbt::encode::write_compound_tag;
use nbt::tag::{CompoundTag, Tag};

fn servers() -> CompoundTag {
    let mut server = CompoundTag::new();
    server.insert_str("ip", "localhost:25565");
    server.insert_str("name", "Minecraft Server");
    server.insert_bool("hideAddress", true);
    let mut root = CompoundTag::new();
    root.insert_compound_tag_vec("servers", vec![server]);
    root
}

fn every_kind() -> CompoundTag {
    let mut inner = CompoundTag::new();
    inner.insert("deep", Tag::List(vec![Tag::List(vec![Tag::Long(-5)])]));
    let mut c = CompoundTag::named("root");
    c.insert("b", Tag::Byte(-3));
    c.insert("s", Tag::Short(-300));
    c.insert("i", Tag::Int(123456789));
    c.insert("l", Tag::Long(-1234567890123));
    c.insert("f", Tag::Float(0.25f32.to_bits()));
    c.insert("d", Tag::Double((-2.5f64).to_bits()));
    c.insert("ba", Tag::ByteArray(vec![1, -128, 127]));
    c.insert("str", Tag::String("héllo".to_string()));
    c.insert("list", Tag::List(vec![Tag::Int(1), Tag::Int(2)]));
    c.insert("comp", Tag::Compound(inner));
    c.insert("ia", Tag::IntArray(vec![i32::MIN, 0, i32::MAX]));
    c.insert("la", Tag::LongArray(vec![i64::MIN, i64::MAX]));
    c
}

#[test]
fn servers_round_trip() {
    let mut bytes = Vec::new();
    write_compound_tag(&mut bytes, servers()).unwrap();
    let back = read_compound_tag(&bytes).unwrap();
    assert_eq!(back, servers());
}

#[test]
fn every_kind_round_trips() {
    let mut bytes = Vec::new();
    write_compound_tag(&mut bytes, every_kind()).unwrap();
    let back = read_compound_tag(&bytes).unwrap();
    assert_eq!(back, every_kind());
}

#[test]
fn nesting_32_deep_round_trips() {
    let mut t = Tag::Int(7);
    for i in 0..32 {
        if i % 2 == 0 {
            t = Tag::List(vec![t]);
        } else {
            let mut c = CompoundTag::new();
            c.insert("x", t);
            t = Tag::Compound(c);
        }
    }
    let mut root = CompoundTag::named("deep");
    root.insert("t", t);
    let mut bytes = Vec::new();
    write_compound_tag(&mut bytes, root).unwrap();
    let back = read_compound_tag(&bytes).unwrap();
    let mut again = Vec::new();
    write_compound_tag(&mut again, back).unwrap();
    assert_eq!(again, bytes);
}

#[test]
fn hello_world_reads_back() {
    let mut c = CompoundTag::named("hello world");
    c.insert_str("name", "Bananrama");
    let mut bytes = Vec::new();
    write_compound_tag(&mut bytes, c).unwrap();
    let back = read_compound_tag(&bytes).unwrap();
    assert_eq!(back.name.as_deref(), Some("hello world"));
    assert_eq!(back.get("name"), Some(&Tag::String("Bananrama".to_string())));
}

#[test]
fn empty_list_reads_whatever_type() {
    let (t, end) = read_payload(&[0x03, 0, 0, 0, 0], 0, 9).unwrap();
    assert_eq!(t, Tag::List(Vec::new()));
    assert_eq!(end, 5);
    let (t, _) = read_payload(&[0x00, 0, 0, 0, 0], 0, 9).unwrap();
    assert_eq!(t, Tag::List(Vec::new()));
}

#[test]
fn empty_compound_reads_sentinel() {
    let (t, end) = read_payload(&[0x00], 0, 10).unwrap();
    assert_eq!(t, Tag::Compound(CompoundTag::new()));
    assert_eq!(end, 1);
}

#[test]
fn mixed_list_is_misread_as_first_type() {
    let bytes = [0x03, 0, 0, 0, 2, 0, 0, 0, 1, 0, 2, b'a', b'b'];
    let (t, end) = read_payload(&bytes, 0, 9).unwrap();
    assert_eq!(t, Tag::List(vec![Tag::Int(1), Tag::Int(0x0002_6162)]));
    assert_eq!(end, bytes.len());
}

#[test]
fn truncated_int_array_is_refused() {
    let mut bytes = vec![0, 0, 0, 10];
    for i in 0..4u8 {
        bytes.extend_from_slice(&[0, 0, 0, i]);
    }
    assert_eq!(read_payload(&bytes, 0, 11), Err(DecodeError::Truncated));

    let mut doc = vec![0x0a, 0x00, 0x00, 0x0b, 0x00, 0x01, b'a'];
    doc.extend_from_slice(&bytes);
    assert_eq!(read_compound_tag(&doc), Err(DecodeError::Truncated));
}

#[test]
fn huge_array_count_is_refused_without_data() {
    assert_eq!(read_payload(&[0xff, 0xff, 0xff, 0xff], 0, 12), Err(DecodeError::Truncated));
    assert_eq!(read_payload(&[0xff, 0xff, 0xff, 0xff, 1], 0, 7), Err(DecodeError::Truncated));
    assert_eq!(read_payload(&[0x01, 0xff, 0xff, 0xff, 0xff], 0, 9), Err(DecodeError::Truncated));
}

#[test]
fn empty_input_is_truncated() {
    assert_eq!(read_compound_tag(&[]), Err(DecodeError::Truncated));
    assert_eq!(read_compound_tag(&[0x0a, 0x00]), Err(DecodeError::Truncated));
    assert_eq!(read_compound_tag(&[0x0a, 0x00, 0x00]), Err(DecodeError::Truncated));
}

#[test]
fn root_must_be_compound() {
    assert_eq!(read_compound_tag(&[0x08, 0x00, 0x00]), Err(DecodeError::RootNotCompound));
    assert_eq!(read_compound_tag(&[0x00]), Err(DecodeError::RootNotCompound));
}

#[test]
fn unknown_type_id_is_refused() {
    assert_eq!(read_compound_tag(&[0x0a, 0, 0, 0x0d, 0, 1, b'x', 0]), Err(DecodeError::InvalidTagId));
    assert_eq!(read_payload(&[0x00, 0, 0, 0, 1], 0, 9), Err(DecodeError::InvalidTagId));
    assert_eq!(read_payload(&[0x00], 0, 0), Err(DecodeError::InvalidTagId));
}

#[test]
fn invalid_utf8_is_refused() {
    assert_eq!(read_string(&[0, 2, 0xc3, 0x28], 0), Err(DecodeError::InvalidUtf8));
    assert_eq!(read_compound_tag(&[0x0a, 0, 1, 0xff, 0]), Err(DecodeError::InvalidUtf8));
}

#[test]
fn duplicate_key_is_refused() {
    let doc = [0x0a, 0, 0, 0x01, 0, 1, b'k', 5, 0x01, 0, 1, b'k', 6, 0];
    assert_eq!(read_compound_tag(&doc), Err(DecodeError::DuplicateKey));
}

#[test]
fn trailing_bytes_are_left() {
    let c = read_compound_tag(&[0x0a, 0, 0, 0, 0xaa, 0xbb]).unwrap();
    assert_eq!(c, CompoundTag::new());
}

#[test]
fn big_endian_readers() {
    assert_eq!(read_u16(&[0x12, 0x34], 0), Ok(0x1234));
    assert_eq!(read_u32(&[9, 1, 2, 3, 4], 1), Ok(0x01020304));
    assert_eq!(read_u64(&[1, 2, 3, 4, 5, 6, 7, 8], 0), Ok(0x0102030405060708));
    assert_eq!(read_u32(&[1, 2, 3], 0), Err(DecodeError::Truncated));
}

#[test]
fn truncated_scalar_is_refused() {
    assert_eq!(read_payload(&[0x01, 0x02, 0x03], 0, 3), Err(DecodeError::Truncated));
    assert_eq!(read_payload(&[0x01, 0x02, 0x03], 1, 2), Ok((Tag::Short(0x0203), 3)));
    assert_eq!(read_payload(&[0x01, 0x02], 2, 1), Err(DecodeError::Truncated));
    assert_eq!(read_string(&[0x00, 0x05, b'a'], 0), Err(DecodeError::Truncated));
}

fn int_array_document() -> Vec<u8> {
    let mut c = CompoundTag::new();
    c.insert("a", Tag::IntArray((1..=10).collect()));
    let mut bytes = Vec::new();
    write_compound_tag(&mut bytes, c).unwrap();
    bytes
}

#[test]
fn int_array_document_bytes() {
    let bytes = int_array_document();
    assert_eq!(bytes.len(), 52);
    assert_eq!(&bytes[0..11], &[0x0a, 0, 0, 0x0b, 0, 1, b'a', 0, 0, 0, 10]);
    assert_eq!(bytes[51], 0x00);
}

#[test]
fn every_proper_prefix_is_truncated() {
    let bytes = int_array_document();
    assert_eq!(read_compound_tag(&bytes[..27]), Err(DecodeError::Truncated));
    for n in 0..bytes.len() {
        assert_eq!(read_compound_tag(&bytes[..n]), Err(DecodeError::Truncated));
    }
    assert!(read_compound_tag(&bytes).is_ok());
}

#[test]
fn empty_list_document_reads_for_any_declared_type() {
    let mut c = CompoundTag::new();
    c.insert("l", Tag::List(Vec::new()));
    let mut bytes = Vec::new();
    write_compound_tag(&mut bytes, c).unwrap();
    assert_eq!(bytes, vec![0x0a, 0, 0, 0x09, 0, 1, b'l', 0x00, 0, 0, 0, 0, 0x00]);
    for t in 0..=12u8 {
        let mut b = bytes.clone();
        b[7] = t;
        let back = read_compound_tag(&b).unwrap();
        assert_eq!(back.get("l"), Some(&Tag::List(Vec::new())));
        assert_eq!(back.tags.len(), 1);
    }
}

#[test]
fn mixed_list_document_runs_out_of_input() {
    let mut c = CompoundTag::new();
    c.insert("l", Tag::List(vec![Tag::Int(1), Tag::String("a".to_string())]));
    let mut bytes = Vec::new();
    write_compound_tag(&mut bytes, c).unwrap();
    assert_eq!(
        bytes,
        vec![0x0a, 0, 0, 0x09, 0, 1, b'l', 0x03, 0, 0, 0, 2, 0, 0, 0, 1, 0, 1, 0x61, 0x00]
    );
    assert_eq!(read_compound_tag(&bytes), Err(DecodeError::Truncated));
    let (t, _) = read_payload(&bytes, 7, 9).unwrap();
    assert_eq!(t, Tag::List(vec![Tag::Int(1), Tag::Int(0x0001_6100)]));
}
