//! The tag data model: a closed union of twelve kinds, and the compound,
//! an ordered mapping from names to tags.

use vstd::prelude::*;

verus! {

pub const TAG_END: u8 = 0;
pub const TAG_BYTE: u8 = 1;
pub const TAG_SHORT: u8 = 2;
pub const TAG_INT: u8 = 3;
pub const TAG_LONG: u8 = 4;
pub const TAG_FLOAT: u8 = 5;
pub const TAG_DOUBLE: u8 = 6;
pub const TAG_BYTE_ARRAY: u8 = 7;
pub const TAG_STRING: u8 = 8;
pub const TAG_LIST: u8 = 9;
pub const TAG_COMPOUND: u8 = 10;
pub const TAG_INT_ARRAY: u8 = 11;
pub const TAG_LONG_ARRAY: u8 = 12;

/// One typed node of a document.
///
/// `Float` and `Double` hold the IEEE-754 bit pattern of the value
/// (`f32::to_bits`, `f64::to_bits`), which is what the format stores.
#[derive(Debug, PartialEq)]
pub enum Tag {
    Byte(i8),
    Short(i16),
    Int(i32),
    Long(i64),
    Float(u32),
    Double(u64),
    ByteArray(Vec<i8>),
    String(String),
    List(Vec<Tag>),
    Compound(CompoundTag),
    IntArray(Vec<i32>),
    LongArray(Vec<i64>),
}

/// An ordered mapping from names to tags, with an optional name of its own
/// (used when it is the root of a document).
#[derive(Debug, PartialEq)]
pub struct CompoundTag {
    pub name: Option<String>,
    pub tags: Vec<(String, Tag)>,
}

impl Tag {
    /// The wire type id of the tag's kind.
    pub open spec fn id(self) -> u8 {
        match self {
            Tag::Byte(_) => TAG_BYTE,
            Tag::Short(_) => TAG_SHORT,
            Tag::Int(_) => TAG_INT,
            Tag::Long(_) => TAG_LONG,
            Tag::Float(_) => TAG_FLOAT,
            Tag::Double(_) => TAG_DOUBLE,
            Tag::ByteArray(_) => TAG_BYTE_ARRAY,
            Tag::String(_) => TAG_STRING,
            Tag::List(_) => TAG_LIST,
            Tag::Compound(_) => TAG_COMPOUND,
            Tag::IntArray(_) => TAG_INT_ARRAY,
            Tag::LongArray(_) => TAG_LONG_ARRAY,
        }
    }

    pub fn type_id(&self) -> (r: u8)
        ensures
            r == self.id(),
            1 <= r <= 12,
    {
        match self {
            Tag::Byte(_) => TAG_BYTE,
            Tag::Short(_) => TAG_SHORT,
            Tag::Int(_) => TAG_INT,
            Tag::Long(_) => TAG_LONG,
            Tag::Float(_) => TAG_FLOAT,
            Tag::Double(_) => TAG_DOUBLE,
            Tag::ByteArray(_) => TAG_BYTE_ARRAY,
            Tag::String(_) => TAG_STRING,
            Tag::List(_) => TAG_LIST,
            Tag::Compound(_) => TAG_COMPOUND,
            Tag::IntArray(_) => TAG_INT_ARRAY,
            Tag::LongArray(_) => TAG_LONG_ARRAY,
        }
    }
}

/// The names of a compound's members are pairwise distinct.
pub open spec fn keys_unique(s: Seq<(String, Tag)>) -> bool {
    forall|i: int, j: int| 0 <= i < j < s.len() ==> #[trigger] s[i].0@ != #[trigger] s[j].0@
}

/// Where a name stands among a compound's members, if it does.
pub open spec fn key_index(s: Seq<(String, Tag)>, k: Seq<char>) -> Option<int> {
    if exists|i: int| 0 <= i < s.len() && s[i].0@ == k {
        Some(choose|i: int| 0 <= i < s.len() && s[i].0@ == k)
    } else {
        None
    }
}

/// `new` is `old` with the member `name` set to `tag`: in place when the
/// name is there, at the end when it is not.
pub open spec fn inserted(
    old: Seq<(String, Tag)>,
    new: Seq<(String, Tag)>,
    name: Seq<char>,
    tag: Tag,
) -> bool {
    match key_index(old, name) {
        Some(i) => new == old.update(i, (old[i].0, tag)),
        None => new.len() == old.len() + 1 && new.take(old.len() as int) == old && new.last().0@
            == name && new.last().1 == tag,
    }
}

impl CompoundTag {
    /// The root name, empty when there is none.
    pub open spec fn name_view(self) -> Seq<char> {
        match self.name {
            Some(n) => n@,
            None => Seq::empty(),
        }
    }

    pub open spec fn wf(self) -> bool {
        keys_unique(self.tags@)
    }

    /// An empty compound without a name.
    pub fn new() -> (r: CompoundTag)
        ensures
            r.name is None,
            r.tags@.len() == 0,
            r.wf(),
    {
        CompoundTag { name: None, tags: Vec::new() }
    }

    /// An empty compound with a name, for use as a document root.
    pub fn named(name: &str) -> (r: CompoundTag)
        ensures
            r.name matches Some(n) && n@ == name@,
            r.tags@.len() == 0,
            r.wf(),
    {
        CompoundTag { name: Some(name.to_string()), tags: Vec::new() }
    }

    /// Where the member called `name` stands, if there is one.
    pub fn position(&self, name: &str) -> (r: Option<usize>)
        ensures
            match r {
                Some(i) => i < self.tags@.len() && self.tags@[i as int].0@ == name@,
                None => forall|j: int| 0 <= j < self.tags@.len() ==> #[trigger] self.tags@[j].0@ != name@,
            },
    {
        let key = name.to_string();
        let mut i: usize = 0;
        while i < self.tags.len()
            invariant
                i <= self.tags@.len(),
                key@ == name@,
                forall|j: int| 0 <= j < i ==> #[trigger] self.tags@[j].0@ != name@,
            decreases self.tags@.len() - i,
        {
            if self.tags[i].0 == key {
                return Some(i);
            }
            i = i + 1;
        }
        None
    }

    /// The tag of the member called `name`, if there is one.
    pub fn get(&self, name: &str) -> (r: Option<&Tag>)
        ensures
            match r {
                Some(t) => exists|i: int| 0 <= i < self.tags@.len() && self.tags@[i].0@ == name@ && self.tags@[i].1 == *t,
                None => forall|j: int| 0 <= j < self.tags@.len() ==> #[trigger] self.tags@[j].0@ != name@,
            },
    {
        match self.position(name) {
            Some(i) => Some(&self.tags[i].1),
            None => None,
        }
    }

    /// Sets the member `name` to `tag`. An existing member of that name keeps
    /// its place and takes the new value; a new name goes to the end.
    pub fn insert(&mut self, name: &str, tag: Tag)
        requires
            old(self).wf(),
        ensures
            final(self).wf(),
            final(self).name == old(self).name,
            inserted(old(self).tags@, final(self).tags@, name@, tag),
    {
        let key = name.to_string();
        let mut i: usize = 0;
        while i < self.tags.len()
            invariant
                i <= self.tags@.len(),
                self.tags@ == old(self).tags@,
                self.name == old(self).name,
                keys_unique(old(self).tags@),
                key@ == name@,
                forall|j: int| 0 <= j < i ==> #[trigger] self.tags@[j].0@ != name@,
            decreases self.tags@.len() - i,
        {
            if self.tags[i].0 == key {
                let ghost k = i as int;
                proof {
                    let c = choose|c: int| 0 <= c < old(self).tags@.len() && old(self).tags@[c].0@ == name@;
                    assert(c == k) by {
                        if c < k {
                            assert(old(self).tags@[c].0@ != old(self).tags@[k].0@);
                        } else if c > k {
                            assert(old(self).tags@[k].0@ != old(self).tags@[c].0@);
                        }
                    }
                }
                let entry_name = self.tags[i].0.clone();
                self.tags.set(i, (entry_name, tag));
                proof {
                    assert forall|a: int, b: int| 0 <= a < b < self.tags@.len() implies
                        #[trigger] self.tags@[a].0@ != #[trigger] self.tags@[b].0@ by {
                        assert(old(self).tags@[a].0@ != old(self).tags@[b].0@);
                    }
                }
                return;
            }
            i = i + 1;
        }
        assert(key_index(old(self).tags@, name@) is None);
        self.tags.push((key, tag));
        proof {
            assert(self.tags@.take(old(self).tags@.len() as int) =~= old(self).tags@);
            assert forall|a: int, b: int| 0 <= a < b < self.tags@.len() implies
                #[trigger] self.tags@[a].0@ != #[trigger] self.tags@[b].0@ by {
                if b < old(self).tags@.len() {
                    assert(old(self).tags@[a].0@ != old(self).tags@[b].0@);
                } else {
                    assert(old(self).tags@[a].0@ != name@);
                }
            }
        }
    }
}

impl CompoundTag {
    /// Sets the member `name` to a string.
    pub fn insert_str(&mut self, name: &str, value: &str)
        requires
            old(self).wf(),
        ensures
            final(self).wf(),
            final(self).name == old(self).name,
            exists|s: String|
                s@ == value@ && inserted(old(self).tags@, final(self).tags@, name@, Tag::String(s)),
    {
        let s = value.to_string();
        let ghost gs = s;
        self.insert(name, Tag::String(s));
        assert(inserted(old(self).tags@, self.tags@, name@, Tag::String(gs)));
    }

    /// Sets the member `name` to a byte: 1 for `true`, 0 for `false`.
    pub fn insert_bool(&mut self, name: &str, value: bool)
        requires
            old(self).wf(),
        ensures
            final(self).wf(),
            final(self).name == old(self).name,
            inserted(
                old(self).tags@,
                final(self).tags@,
                name@,
                Tag::Byte(if value { 1i8 } else { 0i8 }),
            ),
    {
        self.insert(name, Tag::Byte(if value { 1 } else { 0 }));
    }

    /// Sets the member `name` to a list of the given compounds, in order.
    pub fn insert_compound_tag_vec(&mut self, name: &str, vec: Vec<CompoundTag>)
        requires
            old(self).wf(),
        ensures
            final(self).wf(),
            final(self).name == old(self).name,
            exists|v: Vec<Tag>|
                v@ == vec@.map_values(|c: CompoundTag| Tag::Compound(c)) && inserted(
                    old(self).tags@,
                    final(self).tags@,
                    name@,
                    Tag::List(v),
                ),
    {
        let mut rest = vec;
        let mut v: Vec<Tag> = Vec::new();
        while rest.len() > 0
            invariant
                v@ + rest@.map_values(|c: CompoundTag| Tag::Compound(c)) == vec@.map_values(
                    |c: CompoundTag| Tag::Compound(c),
                ),
            decreases rest@.len(),
        {
            let ghost before = rest@;
            let c = rest.remove(0);
            v.push(Tag::Compound(c));
            assert(before.map_values(|c: CompoundTag| Tag::Compound(c)) =~= seq![Tag::Compound(c)]
                + rest@.map_values(|c: CompoundTag| Tag::Compound(c)));
            assert(v@ + rest@.map_values(|c: CompoundTag| Tag::Compound(c)) =~= vec@.map_values(
                |c: CompoundTag| Tag::Compound(c),
            ));
        }
        assert(v@ =~= vec@.map_values(|c: CompoundTag| Tag::Compound(c)));
        let ghost gv = v;
        self.insert(name, Tag::List(v));
        assert(inserted(old(self).tags@, self.tags@, name@, Tag::List(gv)));
    }
}

} // verus!
