//! The byte grammar of the format: big-endian integers, length-prefixed
//! strings, and the payload of every kind of tag.

use vstd::prelude::*;
use vstd::utf8::encode_utf8;
use crate::tag::{keys_unique, CompoundTag, Tag};

verus! {

/// Largest byte length of a string that its 16-bit prefix can carry.
pub const MAX_STRING_BYTES: usize = 65535;

/// Largest element count that a 32-bit count prefix can carry.
pub const MAX_ARRAY_LEN: usize = 4294967295;

pub open spec fn be16(x: u16) -> Seq<u8> {
    seq![(x >> 8u16) as u8, x as u8]
}

pub open spec fn be32(x: u32) -> Seq<u8> {
    seq![(x >> 24u32) as u8, (x >> 16u32) as u8, (x >> 8u32) as u8, x as u8]
}

pub open spec fn be64(x: u64) -> Seq<u8> {
    seq![
        (x >> 56u64) as u8,
        (x >> 48u64) as u8,
        (x >> 40u64) as u8,
        (x >> 32u64) as u8,
        (x >> 24u64) as u8,
        (x >> 16u64) as u8,
        (x >> 8u64) as u8,
        x as u8,
    ]
}

/// The UTF-8 bytes of a string.
pub open spec fn utf8(s: Seq<char>) -> Seq<u8> {
    encode_utf8(s)
}

/// A string's byte length fits its 16-bit prefix.
pub open spec fn string_fits(s: Seq<char>) -> bool {
    utf8(s).len() <= MAX_STRING_BYTES
}

/// A string on the wire: its UTF-8 byte count as a big-endian `u16`, then the bytes.
pub open spec fn string_bytes(s: Seq<char>) -> Seq<u8> {
    be16(utf8(s).len() as u16) + utf8(s)
}

/// The count prefix of an array or a list.
pub open spec fn count_bytes(n: nat) -> Seq<u8> {
    be32(n as u32)
}

pub open spec fn i8s_bytes(s: Seq<i8>) -> Seq<u8>
    decreases s.len(),
{
    if s.len() == 0 {
        Seq::empty()
    } else {
        i8s_bytes(s.drop_last()) + seq![s.last() as u8]
    }
}

pub open spec fn i32s_bytes(s: Seq<i32>) -> Seq<u8>
    decreases s.len(),
{
    if s.len() == 0 {
        Seq::empty()
    } else {
        i32s_bytes(s.drop_last()) + be32(s.last() as u32)
    }
}

pub open spec fn i64s_bytes(s: Seq<i64>) -> Seq<u8>
    decreases s.len(),
{
    if s.len() == 0 {
        Seq::empty()
    } else {
        i64s_bytes(s.drop_last()) + be64(s.last() as u64)
    }
}

/// The element type id written in a list's header: the first element's
/// type id, or 0 for an empty list.
pub open spec fn list_elem_id(s: Seq<Tag>) -> u8 {
    if s.len() == 0 {
        0
    } else {
        s[0].id()
    }
}

/// The payload of a tag: what follows its type id (and, inside a compound,
/// its name).
pub open spec fn payload(t: Tag) -> Seq<u8>
    decreases t,
{
    match t {
        Tag::Byte(v) => seq![v as u8],
        Tag::Short(v) => be16(v as u16),
        Tag::Int(v) => be32(v as u32),
        Tag::Long(v) => be64(v as u64),
        Tag::Float(b) => be32(b),
        Tag::Double(b) => be64(b),
        Tag::ByteArray(v) => count_bytes(v@.len()) + i8s_bytes(v@),
        Tag::String(s) => string_bytes(s@),
        Tag::List(v) => seq![list_elem_id(v@)] + count_bytes(v@.len()) + payloads(v@),
        Tag::Compound(c) => entries_bytes(c.tags@) + seq![0u8],
        Tag::IntArray(v) => count_bytes(v@.len()) + i32s_bytes(v@),
        Tag::LongArray(v) => count_bytes(v@.len()) + i64s_bytes(v@),
    }
}

/// The payloads of list elements, back to back.
pub open spec fn payloads(s: Seq<Tag>) -> Seq<u8>
    decreases s,
{
    if s.len() == 0 {
        Seq::empty()
    } else {
        payloads(s.drop_last()) + payload(s.last())
    }
}

/// The members of a compound in order, each as type id, name and payload,
/// without the closing sentinel.
pub open spec fn entries_bytes(s: Seq<(String, Tag)>) -> Seq<u8>
    decreases s,
{
    if s.len() == 0 {
        Seq::empty()
    } else {
        entries_bytes(s.drop_last()) + (seq![s.last().1.id()] + string_bytes(s.last().0@)
            + payload(s.last().1))
    }
}

/// A whole document: the compound type id, the root name (empty when the
/// root has none), and the compound's payload.
pub open spec fn document_bytes(c: CompoundTag) -> Seq<u8> {
    seq![10u8] + string_bytes(c.name_view()) + payload(Tag::Compound(c))
}

/// Every string in the tag fits its prefix and every array and list fits
/// its count.
pub open spec fn encodable(t: Tag) -> bool
    decreases t,
{
    match t {
        Tag::ByteArray(v) => v@.len() <= MAX_ARRAY_LEN,
        Tag::String(s) => string_fits(s@),
        Tag::List(v) => v@.len() <= MAX_ARRAY_LEN && all_encodable(v@),
        Tag::Compound(c) => entries_encodable(c.tags@),
        Tag::IntArray(v) => v@.len() <= MAX_ARRAY_LEN,
        Tag::LongArray(v) => v@.len() <= MAX_ARRAY_LEN,
        _ => true,
    }
}

pub open spec fn all_encodable(s: Seq<Tag>) -> bool
    decreases s,
{
    if s.len() == 0 {
        true
    } else {
        all_encodable(s.drop_last()) && encodable(s.last())
    }
}

pub open spec fn entries_encodable(s: Seq<(String, Tag)>) -> bool
    decreases s,
{
    if s.len() == 0 {
        true
    } else {
        entries_encodable(s.drop_last()) && string_fits(s.last().0@) && encodable(s.last().1)
    }
}

/// Lists are of one kind and the names of each compound are distinct,
/// all the way down.
pub open spec fn tag_wf(t: Tag) -> bool
    decreases t,
{
    match t {
        Tag::List(v) => list_wf(v@, list_elem_id(v@)),
        Tag::Compound(c) => keys_unique(c.tags@) && entries_wf(c.tags@),
        _ => true,
    }
}

pub open spec fn list_wf(s: Seq<Tag>, id: u8) -> bool
    decreases s,
{
    if s.len() == 0 {
        true
    } else {
        list_wf(s.drop_last(), id) && s.last().id() == id && tag_wf(s.last())
    }
}

pub open spec fn entries_wf(s: Seq<(String, Tag)>) -> bool
    decreases s,
{
    if s.len() == 0 {
        true
    } else {
        entries_wf(s.drop_last()) && tag_wf(s.last().1)
    }
}

/// The tag is or holds an empty list. Such a list is read whatever element
/// type id it declares, and written back with id 0.
pub open spec fn has_empty_list(t: Tag) -> bool
    decreases t,
{
    match t {
        Tag::List(v) => v@.len() == 0 || any_empty_list(v@),
        Tag::Compound(c) => entries_any_empty_list(c.tags@),
        _ => false,
    }
}

pub open spec fn any_empty_list(s: Seq<Tag>) -> bool
    decreases s,
{
    if s.len() == 0 {
        false
    } else {
        any_empty_list(s.drop_last()) || has_empty_list(s.last())
    }
}

pub open spec fn entries_any_empty_list(s: Seq<(String, Tag)>) -> bool
    decreases s,
{
    if s.len() == 0 {
        false
    } else {
        entries_any_empty_list(s.drop_last()) || has_empty_list(s.last().1)
    }
}

pub open spec fn document_encodable(c: CompoundTag) -> bool {
    string_fits(c.name_view()) && encodable(Tag::Compound(c))
}

pub(crate) proof fn lemma_all_encodable_index(s: Seq<Tag>, k: int)
    requires
        all_encodable(s),
        0 <= k < s.len(),
    ensures
        encodable(s[k]),
    decreases s.len(),
{
    if k < s.len() - 1 {
        lemma_all_encodable_index(s.drop_last(), k);
    }
}

pub(crate) proof fn lemma_entries_encodable_index(s: Seq<(String, Tag)>, k: int)
    requires
        entries_encodable(s),
        0 <= k < s.len(),
    ensures
        string_fits(s[k].0@),
        encodable(s[k].1),
    decreases s.len(),
{
    if k < s.len() - 1 {
        lemma_entries_encodable_index(s.drop_last(), k);
    }
}

pub(crate) proof fn lemma_entries_wf_index(s: Seq<(String, Tag)>, k: int)
    requires
        entries_wf(s),
        0 <= k < s.len(),
    ensures
        tag_wf(s[k].1),
    decreases s.len(),
{
    if k < s.len() - 1 {
        lemma_entries_wf_index(s.drop_last(), k);
    }
}

pub(crate) proof fn lemma_payload_nonempty(t: Tag)
    ensures
        payload(t).len() >= 1,
{
}

pub(crate) proof fn lemma_payloads_len(s: Seq<Tag>)
    ensures
        payloads(s).len() >= s.len(),
    decreases s.len(),
{
    if s.len() > 0 {
        lemma_payloads_len(s.drop_last());
        lemma_payload_nonempty(s.last());
    }
}

/// The payloads of the first `k` elements begin the payloads of all.
pub(crate) proof fn lemma_payloads_prefix(s: Seq<Tag>, k: int)
    requires
        0 <= k <= s.len(),
    ensures
        payloads(s.take(k)).len() <= payloads(s).len(),
        payloads(s).take(payloads(s.take(k)).len() as int) == payloads(s.take(k)),
    decreases s.len(),
{
    if k == s.len() {
        assert(s.take(k) =~= s);
    } else {
        lemma_payloads_prefix(s.drop_last(), k);
        assert(s.drop_last().take(k) =~= s.take(k));
        assert(payloads(s).take(payloads(s.take(k)).len() as int) =~= payloads(s.drop_last()).take(
            payloads(s.take(k)).len() as int,
        ));
    }
}

/// The first `k` members' bytes begin the bytes of all members.
pub(crate) proof fn lemma_entries_prefix(s: Seq<(String, Tag)>, k: int)
    requires
        0 <= k <= s.len(),
    ensures
        entries_bytes(s.take(k)).len() <= entries_bytes(s).len(),
        entries_bytes(s).take(entries_bytes(s.take(k)).len() as int) == entries_bytes(s.take(k)),
    decreases s.len(),
{
    if k == s.len() {
        assert(s.take(k) =~= s);
    } else {
        lemma_entries_prefix(s.drop_last(), k);
        assert(s.drop_last().take(k) =~= s.take(k));
        assert(entries_bytes(s).take(entries_bytes(s.take(k)).len() as int) =~= entries_bytes(
            s.drop_last(),
        ).take(entries_bytes(s.take(k)).len() as int));
    }
}

pub(crate) proof fn lemma_array_lens(a: Seq<i8>, b: Seq<i32>, c: Seq<i64>)
    ensures
        i8s_bytes(a).len() == a.len(),
        i32s_bytes(b).len() == 4 * b.len(),
        i64s_bytes(c).len() == 8 * c.len(),
    decreases a.len() + b.len() + c.len(),
{
    if a.len() > 0 {
        lemma_array_lens(a.drop_last(), b, c);
    }
    if b.len() > 0 {
        lemma_array_lens(a, b.drop_last(), c);
    }
    if c.len() > 0 {
        lemma_array_lens(a, b, c.drop_last());
    }
}

/// A string of N UTF-8 bytes is written as a big-endian 16-bit field equal
/// to N followed by the N bytes, whenever N fits in 16 bits; when it does
/// not, the string tag cannot be written at all.
pub proof fn lemma_string_length_prefix(s: String)
    ensures
        string_fits(s@) ==> {
            let b = payload(Tag::String(s));
            &&& b.len() == 2 + utf8(s@).len()
            &&& b[0] as int * 256 + b[1] as int == utf8(s@).len()
            &&& b.skip(2) == utf8(s@)
        },
        !string_fits(s@) ==> !encodable(Tag::String(s)),
{
    if string_fits(s@) {
        let n = utf8(s@).len() as u16;
        assert(((n >> 8u16) as u8) as u16 * 256u16 + (n as u8) as u16 == n) by (bit_vector);
        assert(payload(Tag::String(s)).skip(2) =~= utf8(s@));
    }
}

/// An empty list is written as element type 0 and count 0, whatever kind
/// of list it was meant to be; an empty compound is the sentinel alone.
pub proof fn lemma_empty_containers(v: Vec<Tag>, c: CompoundTag)
    requires
        v@.len() == 0,
        c.tags@.len() == 0,
    ensures
        payload(Tag::List(v)) == seq![0u8, 0u8, 0u8, 0u8, 0u8],
        payload(Tag::Compound(c)) == seq![0u8],
{
    assert((0u32 >> 24u32) as u8 == 0 && (0u32 >> 16u32) as u8 == 0 && (0u32 >> 8u32) as u8 == 0
        && 0u32 as u8 == 0) by (bit_vector);
    assert(payload(Tag::List(v)) =~= seq![0u8, 0u8, 0u8, 0u8, 0u8]);
    assert(payload(Tag::Compound(c)) =~= seq![0u8]);
}

/// A list is written with its first element's type id and then every
/// element's payload, without checking that the elements are of one kind:
/// a list that mixes kinds is written as if all were of the first kind.
pub proof fn lemma_list_trusts_first(v: Vec<Tag>)
    requires
        v@.len() > 0,
    ensures
        payload(Tag::List(v))[0] == v@[0].id(),
        payload(Tag::List(v)) == seq![v@[0].id()] + count_bytes(v@.len()) + payloads(v@),
{
}

} // verus!
