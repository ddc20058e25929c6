use nbt::encode::{write_compound_tag, write_string, write_tag, EncodeError};
use nbt::tag::{CompoundTag, Tag};

fn named_string(out: &mut Vec<u8>, s: &str) {
    out.push((s.len() >> 8) as u8);
    out.push(s.len() as u8);
    out.extend_from_slice(s.as_bytes());
}

fn hello_world_bytes() -> Vec<u8> {
    let mut b = vec![0x0a];
    named_string(&mut b, "hello world");
    b.push(0x08);
    named_string(&mut b, "name");
    named_string(&mut b, "Bananrama");
    b.push(0x00);
    b
}

fn servers_bytes() -> Vec<u8> {
    let mut b = vec![0x0a, 0x00, 0x00, 0x09];
    named_string(&mut b, "servers");
    b.extend_from_slice(&[0x0a, 0x00, 0x00, 0x00, 0x01]);
    b.push(0x08);
    named_string(&mut b, "ip");
    named_string(&mut b, "localhost:25565");
    b.push(0x08);
    named_string(&mut b, "name");
    named_string(&mut b, "Minecraft Server");
    b.push(0x01);
    named_string(&mut b, "hideAddress");
    b.push(0x01);
    b.push(0x00);
    b.push(0x00);
    b
}

#[test]
fn test_hello_world_write() {
    let mut hello_world = CompoundTag::named("hello world");
    hello_world.insert_str("name", "Bananrama");

    let mut vec = Vec::new();
    write_compound_tag(&mut vec, hello_world).unwrap();

    assert_eq!(vec, hello_world_bytes());
}

#[test]
fn test_servers_write() {
    let mut server = CompoundTag::new();

    server.insert_str("ip", "localhost:25565");
    server.insert_str("name", "Minecraft Server");
    server.insert_bool("hideAddress", true);

    let mut servers = Vec::new();
    servers.push(server);

    let mut root_tag = CompoundTag::new();
    root_tag.insert_compound_tag_vec("servers", servers);

    let mut vec = Vec::new();
    write_compound_tag(&mut vec, root_tag).unwrap();

    assert_eq!(vec, servers_bytes());
}

#[test]
fn hello_world_golden_bytes_exact() {
    let mut c = CompoundTag::named("hello world");
    c.insert_str("name", "Bananrama");
    let mut vec = Vec::new();
    write_compound_tag(&mut vec, c).unwrap();
    assert_eq!(
        vec,
        vec![
            0x0a, 0x00, 0x0b, b'h', b'e', b'l', b'l', b'o', b' ', b'w', b'o', b'r', b'l', b'd',
            0x08, 0x00, 0x04, b'n', b'a', b'm', b'e', 0x00, 0x09, b'B', b'a', b'n', b'a', b'n',
            b'r', b'a', b'm', b'a', 0x00
        ]
    );
}

#[test]
fn writer_appends_after_existing_bytes() {
    let mut vec = vec![0xee];
    write_compound_tag(&mut vec, CompoundTag::new()).unwrap();
    assert_eq!(vec, vec![0xee, 0x0a, 0x00, 0x00, 0x00]);
}

#[test]
fn scalars_are_big_endian() {
    let cases: Vec<(Tag, Vec<u8>)> = vec![
        (Tag::Byte(-1), vec![0xff]),
        (Tag::Short(0x1234), vec![0x12, 0x34]),
        (Tag::Short(-2), vec![0xff, 0xfe]),
        (Tag::Int(0x01020304), vec![1, 2, 3, 4]),
        (Tag::Int(-1), vec![0xff; 4]),
        (Tag::Long(0x0102030405060708), vec![1, 2, 3, 4, 5, 6, 7, 8]),
        (Tag::Float(1.5f32.to_bits()), vec![0x3f, 0xc0, 0x00, 0x00]),
        (Tag::Double(1.5f64.to_bits()), vec![0x3f, 0xf8, 0, 0, 0, 0, 0, 0]),
    ];
    for (t, expected) in cases {
        let mut out = Vec::new();
        write_tag(&mut out, &t).unwrap();
        assert_eq!(out, expected);
    }
}

#[test]
fn arrays_have_u32_count() {
    let mut out = Vec::new();
    write_tag(&mut out, &Tag::ByteArray(vec![1, -1])).unwrap();
    assert_eq!(out, vec![0, 0, 0, 2, 0x01, 0xff]);

    let mut out = Vec::new();
    write_tag(&mut out, &Tag::IntArray(vec![1, -2])).unwrap();
    assert_eq!(out, vec![0, 0, 0, 2, 0, 0, 0, 1, 0xff, 0xff, 0xff, 0xfe]);

    let mut out = Vec::new();
    write_tag(&mut out, &Tag::LongArray(vec![3])).unwrap();
    assert_eq!(out, vec![0, 0, 0, 1, 0, 0, 0, 0, 0, 0, 0, 3]);
}

#[test]
fn string_prefix_counts_utf8_bytes() {
    let mut out = Vec::new();
    write_string(&mut out, "é€").unwrap();
    assert_eq!(out, vec![0x00, 0x05, 0xc3, 0xa9, 0xe2, 0x82, 0xac]);
}

#[test]
fn string_of_65535_bytes_is_written() {
    let s = "a".repeat(65535);
    let mut out = Vec::new();
    write_string(&mut out, &s).unwrap();
    assert_eq!(out.len(), 65537);
    assert_eq!(&out[0..2], &[0xff, 0xff]);
}

#[test]
fn string_of_65536_bytes_is_refused() {
    let s = "a".repeat(65536);
    let mut out = Vec::new();
    assert_eq!(write_string(&mut out, &s), Err(EncodeError::SizeLimit));
    assert!(out.is_empty());

    let mut c = CompoundTag::new();
    c.insert("long", Tag::String(s));
    let mut out = Vec::new();
    assert_eq!(write_compound_tag(&mut out, c), Err(EncodeError::SizeLimit));
}

#[test]
fn long_root_name_is_refused() {
    let name = "n".repeat(70000);
    let c = CompoundTag::named(&name);
    let mut out = Vec::new();
    assert_eq!(write_compound_tag(&mut out, c), Err(EncodeError::SizeLimit));
}

#[test]
fn empty_list_is_type_zero_count_zero() {
    let mut out = Vec::new();
    write_tag(&mut out, &Tag::List(Vec::new())).unwrap();
    assert_eq!(out, vec![0, 0, 0, 0, 0]);
}

#[test]
fn empty_compound_is_sentinel_only() {
    let mut out = Vec::new();
    write_tag(&mut out, &Tag::Compound(CompoundTag::new())).unwrap();
    assert_eq!(out, vec![0]);
}

#[test]
fn list_elements_are_payload_only() {
    let mut out = Vec::new();
    write_tag(&mut out, &Tag::List(vec![Tag::Short(1), Tag::Short(2)])).unwrap();
    assert_eq!(out, vec![0x02, 0, 0, 0, 2, 0, 1, 0, 2]);
}

#[test]
fn mixed_list_is_written_with_first_type() {
    let mut out = Vec::new();
    let t = Tag::List(vec![Tag::Int(1), Tag::String("ab".to_string())]);
    write_tag(&mut out, &t).unwrap();
    assert_eq!(out, vec![0x03, 0, 0, 0, 2, 0, 0, 0, 1, 0, 2, b'a', b'b']);
}

#[test]
fn insert_overwrites_in_place() {
    let mut c = CompoundTag::new();
    c.insert("a", Tag::Int(1));
    c.insert("b", Tag::Int(2));
    c.insert("a", Tag::Int(3));
    assert_eq!(c.tags.len(), 2);
    assert_eq!(c.tags[0].0, "a");
    assert_eq!(c.tags[0].1, Tag::Int(3));
    assert_eq!(c.tags[1].0, "b");
    assert_eq!(c.get("a"), Some(&Tag::Int(3)));
    assert_eq!(c.get("z"), None);
    assert_eq!(c.position("b"), Some(1));
}

#[test]
fn type_ids_follow_the_table() {
    let tags = vec![
        Tag::Byte(0),
        Tag::Short(0),
        Tag::Int(0),
        Tag::Long(0),
        Tag::Float(0),
        Tag::Double(0),
        Tag::ByteArray(Vec::new()),
        Tag::String(String::new()),
        Tag::List(Vec::new()),
        Tag::Compound(CompoundTag::new()),
        Tag::IntArray(Vec::new()),
        Tag::LongArray(Vec::new()),
    ];
    for (i, t) in tags.iter().enumerate() {
        assert_eq!(t.type_id() as usize, i + 1);
    }
}

#[test]
fn equal_documents_give_equal_bytes() {
    let build = || {
        let mut c = CompoundTag::named("r");
        c.insert("x", Tag::Float(2.5f32.to_bits()));
        c.insert("s", Tag::String("v".repeat(70000)));
        c
    };
    let mut w1 = vec![1];
    let mut w2 = vec![1];
    assert_eq!(write_compound_tag(&mut w1, build()), write_compound_tag(&mut w2, build()));
    assert_eq!(w1, w2);
    assert_eq!(w1, vec![1]);
}
