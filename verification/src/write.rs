//! The bytes of a tag tree, and the writer that produces them.

use crate::bytes::{
    append, be_bytes, be_i16, be_i32, be_i64, be_i8, be_u32, be_u64, i16_bytes, i32_bytes,
    i64_bytes, i8_byte, span_values, u16_bytes, u32_bytes, u64_bytes, unsigned,
};
use crate::laws::read_inverts_write;
use crate::model::TagView;
use crate::read::{read_document, Failure};
use crate::tag::{list_view_each, Compound, Tag, TagError};
use vstd::prelude::*;
use vstd::utf8::encode_utf8;

verus! {

/// The most items that an array or a list can hold on the wire.
pub const MAX_COUNT: usize = 0x7fff_ffff;

/// The most bytes that a string can hold on the wire.
pub const MAX_TEXT: usize = 0xffff;

/// A string on the wire: the number of its UTF-8 bytes in two bytes, then
/// the bytes.
pub open spec fn text_bytes(text: Seq<char>) -> Seq<u8> {
    be_bytes(encode_utf8(text).len(), 2) + encode_utf8(text)
}

/// The number of items of an array or a list on the wire, in four bytes.
pub open spec fn count_bytes(count: nat) -> Seq<u8> {
    be_bytes(count, 4)
}

/// The items of an array from place `from` on, each in `width` bytes of
/// two's complement.
pub open spec fn packed(items: Seq<int>, width: nat, from: nat) -> Seq<u8>
    decreases items.len() - from,
{
    if from >= items.len() {
        Seq::empty()
    } else {
        be_bytes(unsigned(items[from as int], width), width) + packed(items, width, from + 1)
    }
}

/// The items of a byte array as numbers.
pub open spec fn numbers_i8(items: Seq<i8>) -> Seq<int> {
    items.map_values(|n: i8| n as int)
}

/// The items of an int array as numbers.
pub open spec fn numbers_i32(items: Seq<i32>) -> Seq<int> {
    items.map_values(|n: i32| n as int)
}

/// The items of a long array as numbers.
pub open spec fn numbers_i64(items: Seq<i64>) -> Seq<int> {
    items.map_values(|n: i64| n as int)
}

/// The kind that a list declares for its items: that of the first, and 0
/// for a list without items.
pub open spec fn item_kind(items: Seq<TagView>) -> u8 {
    if items.len() == 0 {
        0
    } else {
        items[0].kind()
    }
}

/// The payload of a value: what follows its type byte and its name.
pub open spec fn payload(value: TagView) -> Seq<u8>
    decreases value, 0nat,
{
    match value {
        TagView::Byte(n) => be_i8(n),
        TagView::Short(n) => be_i16(n),
        TagView::Int(n) => be_i32(n),
        TagView::Long(n) => be_i64(n),
        TagView::Float(bits) => be_u32(bits),
        TagView::Double(bits) => be_u64(bits),
        TagView::ByteArray(items) => count_bytes(items.len()) + packed(numbers_i8(items), 1, 0),
        TagView::Text(text) => text_bytes(text),
        TagView::List(items) => seq![item_kind(items)] + count_bytes(items.len()) + payloads_from(
            items,
            0,
        ),
        TagView::Compound(entries) => entries_from(entries, 0) + seq![0u8],
        TagView::IntArray(items) => count_bytes(items.len()) + packed(numbers_i32(items), 4, 0),
        TagView::LongArray(items) => count_bytes(items.len()) + packed(numbers_i64(items), 8, 0),
    }
}

/// The payloads of the items of a list from place `from` on, one after the
/// other, without type bytes or names.
pub open spec fn payloads_from(items: Seq<TagView>, from: nat) -> Seq<u8>
    decreases items, items.len() - from,
{
    if from >= items.len() {
        Seq::empty()
    } else {
        payload(items[from as int]) + payloads_from(items, from + 1)
    }
}

/// One entry of a compound: the type byte of the value, the name, the payload.
pub open spec fn entry_bytes(name: Seq<char>, value: TagView) -> Seq<u8>
    decreases value, 1nat,
{
    seq![value.kind()] + text_bytes(name) + payload(value)
}

/// The entries of a compound from place `from` on, one after the other.
pub open spec fn entries_from(entries: Seq<(Seq<char>, TagView)>, from: nat) -> Seq<u8>
    decreases entries, entries.len() - from,
{
    if from >= entries.len() {
        Seq::empty()
    } else {
        entry_bytes(entries[from as int].0, entries[from as int].1) + entries_from(entries, from + 1)
    }
}

/// The bytes of a document: the entries of the root compound, without a type
/// byte or a name before them and without an end byte after them.
pub open spec fn document(root: TagView) -> Seq<u8> {
    match root {
        TagView::Compound(entries) => entries_from(entries, 0),
        _ => Seq::empty(),
    }
}

impl TagView {
    /// In every list of the tree the items are all of one kind.
    pub open spec fn uniform(self) -> bool
        decreases self,
    {
        match self {
            TagView::List(items) => forall|i: int|
                0 <= i < items.len() ==> (#[trigger] items[i]).kind() == items[0].kind()
                    && items[i].uniform(),
            TagView::Compound(entries) => forall|i: int|
                0 <= i < entries.len() ==> (#[trigger] entries[i]).1.uniform(),
            _ => true,
        }
    }

    /// Every length in the tree fits the field that carries it: the bytes of
    /// a string or a name two bytes without sign, the items of an array or a
    /// list four bytes with sign.
    pub open spec fn fits(self) -> bool
        decreases self,
    {
        match self {
            TagView::ByteArray(items) => items.len() <= MAX_COUNT,
            TagView::IntArray(items) => items.len() <= MAX_COUNT,
            TagView::LongArray(items) => items.len() <= MAX_COUNT,
            TagView::Text(text) => encode_utf8(text).len() <= MAX_TEXT,
            TagView::List(items) => items.len() <= MAX_COUNT && forall|i: int|
                0 <= i < items.len() ==> (#[trigger] items[i]).fits(),
            TagView::Compound(entries) => forall|i: int|
                0 <= i < entries.len() ==> encode_utf8((#[trigger] entries[i]).0).len() <= MAX_TEXT
                    && entries[i].1.fits(),
            _ => true,
        }
    }

    /// The tree can be written as a document: its root is a compound, its
    /// lists are uniform and its lengths fit.
    pub open spec fn writable(self) -> bool {
        self is Compound && self.uniform() && self.fits()
    }
}

/// Writes a string: the number of its bytes, then the bytes.
pub fn write_string(buf: &mut Vec<u8>, value: &str)
    requires
        encode_utf8(value@).len() <= MAX_TEXT,
    ensures
        final(buf)@ == old(buf)@ + text_bytes(value@),
{
    let bytes = value.as_bytes();
    let count = u16_bytes(bytes.len() as u16);
    append(buf, count.as_slice());
    append(buf, bytes);
    assert(buf@ =~= old(buf)@ + text_bytes(value@));
}

/// Writes the number of items of an array or a list.
fn write_count(buf: &mut Vec<u8>, count: usize)
    requires
        count <= MAX_COUNT,
    ensures
        final(buf)@ == old(buf)@ + count_bytes(count as nat),
{
    let bytes = i32_bytes(count as i32);
    append(buf, bytes.as_slice());
}

impl Tag {
    /// The number that names the tag's kind on the wire.
    pub fn get_type(&self) -> (kind: u8)
        ensures
            kind == self@.kind(),
            1 <= kind <= 12,
    {
        match self {
            Tag::ByteTag(_) => 0x01,
            Tag::ShortTag(_) => 0x02,
            Tag::IntTag(_) => 0x03,
            Tag::LongTag(_) => 0x04,
            Tag::FloatTag(_) => 0x05,
            Tag::DoubleTag(_) => 0x06,
            Tag::ByteArray(_) => 0x07,
            Tag::StringTag(_) => 0x08,
            Tag::ListTag(_) => 0x09,
            Tag::CompoundTag(_) => 0x0A,
            Tag::IntArray(_) => 0x0B,
            Tag::LongArray(_) => 0x0C,
        }
    }

    /// Writes the type byte of the tag.
    pub fn write_type(&self, buf: &mut Vec<u8>)
        ensures
            final(buf)@ == old(buf)@ + seq![self@.kind()],
    {
        buf.push(self.get_type());
        assert(buf@ =~= old(buf)@ + seq![self@.kind()]);
    }

    /// Whether the items of every list in the tree are all of one kind.
    #[verifier::loop_isolation(false)]
    pub fn is_uniform(&self) -> (uniform: bool)
        ensures
            uniform == self@.uniform(),
        decreases self,
    {
        match self {
            Tag::ListTag(value) => {
                proof {
                    list_view_each(*value);
                }
                let ghost items = self@->List_0;
                let mut i: usize = 0;
                while i < value.len()
                    invariant
                        i <= value.len(),
                        forall|j: int|
                            0 <= j < i ==> (#[trigger] items[j]).kind() == items[0].kind()
                                && items[j].uniform(),
                    decreases value.len() - i,
                {
                    proof {
                        vstd::std_specs::vec::axiom_vec_index_decreases(*value, i as int);
                    }
                    if value[i].get_type() != value[0].get_type() || !value[i].is_uniform() {
                        assert(!(items[i as int].kind() == items[0].kind()
                            && items[i as int].uniform()));
                        return false;
                    }
                    i += 1;
                }
                true
            },
            Tag::CompoundTag(value) => {
                proof {
                    value.view_of_tag();
                }
                let ghost entries = self@->Compound_0;
                let mut i: usize = 0;
                while i < value.len()
                    invariant
                        i <= value@.len(),
                        forall|j: int| 0 <= j < i ==> (#[trigger] entries[j]).1.uniform(),
                    decreases value@.len() - i,
                {
                    if !value.value_at(i).is_uniform() {
                        assert(!entries[i as int].1.uniform());
                        return false;
                    }
                    i += 1;
                }
                true
            },
            _ => true,
        }
    }

    /// Whether every length in the tree fits the field that carries it.
    #[verifier::loop_isolation(false)]
    pub fn fits(&self) -> (fits: bool)
        ensures
            fits == self@.fits(),
        decreases self,
    {
        match self {
            Tag::ByteArray(value) => value.len() <= MAX_COUNT,
            Tag::IntArray(value) => value.len() <= MAX_COUNT,
            Tag::LongArray(value) => value.len() <= MAX_COUNT,
            Tag::StringTag(value) => value.as_str().as_bytes().len() <= MAX_TEXT,
            Tag::ListTag(value) => {
                proof {
                    list_view_each(*value);
                }
                let ghost items = self@->List_0;
                if value.len() > MAX_COUNT {
                    return false;
                }
                let mut i: usize = 0;
                while i < value.len()
                    invariant
                        i <= value.len(),
                        forall|j: int| 0 <= j < i ==> (#[trigger] items[j]).fits(),
                    decreases value.len() - i,
                {
                    proof {
                        vstd::std_specs::vec::axiom_vec_index_decreases(*value, i as int);
                    }
                    if !value[i].fits() {
                        assert(!items[i as int].fits());
                        return false;
                    }
                    i += 1;
                }
                true
            },
            Tag::CompoundTag(value) => {
                proof {
                    value.view_of_tag();
                }
                let ghost entries = self@->Compound_0;
                let mut i: usize = 0;
                while i < value.len()
                    invariant
                        i <= value@.len(),
                        forall|j: int|
                            0 <= j < i ==> encode_utf8((#[trigger] entries[j]).0).len() <= MAX_TEXT
                                && entries[j].1.fits(),
                    decreases value@.len() - i,
                {
                    if value.key_at(i).as_str().as_bytes().len() > MAX_TEXT || !value.value_at(i).fits() {
                        assert(!(encode_utf8(entries[i as int].0).len() <= MAX_TEXT
                            && entries[i as int].1.fits()));
                        return false;
                    }
                    i += 1;
                }
                true
            },
            _ => true,
        }
    }

    /// Writes the entries of a compound, one after the other.
    #[verifier::loop_isolation(false)]
    fn write_entries(value: &Compound, buf: &mut Vec<u8>)
        requires
            TagView::Compound(value@).fits(),
        ensures
            final(buf)@ == old(buf)@ + entries_from(value@, 0),
            TagView::Compound(value@).well_formed(),
        decreases value, 0nat,
    {
        let ghost entries = value@;
        assert(TagView::Compound(entries)->Compound_0 == entries);
        value.keys_are_distinct();
        let mut i: usize = 0;
        while i < value.len()
            invariant
                i <= value@.len(),
                buf@ + entries_from(entries, i as nat) == old(buf)@ + entries_from(entries, 0),
                forall|j: int| 0 <= j < i ==> (#[trigger] entries[j]).1.well_formed(),
            decreases value@.len() - i,
        {
            let ghost before = buf@;
            let key = value.key_at(i);
            let tag = value.value_at(i);
            assert(encode_utf8(entries[i as int].0).len() <= MAX_TEXT && entries[i as int].1.fits());
            tag.write_type(buf);
            write_string(buf, key.as_str());
            tag.write_element(buf);
            assert(buf@ =~= before + entry_bytes(entries[i as int].0, entries[i as int].1));
            assert(buf@ + entries_from(entries, (i + 1) as nat) =~= before + entries_from(
                entries,
                i as nat,
            ));
            i += 1;
        }
        assert(buf@ =~= old(buf)@ + entries_from(entries, 0));
    }

    /// Writes the payload of the tag: what follows its type byte and its name.
    #[verifier::loop_isolation(false)]
    pub fn write_element(&self, buf: &mut Vec<u8>)
        requires
            self@.fits(),
        ensures
            final(buf)@ == old(buf)@ + payload(self@),
            self@.well_formed(),
        decreases self, 1nat,
    {
        proof {
            span_values();
        }
        match self {
            Tag::ByteTag(value) => {
                let byte = i8_byte(*value);
                buf.push(byte);
                assert(buf@ =~= old(buf)@ + seq![byte]);
            },
            Tag::ShortTag(value) => append(buf, i16_bytes(*value).as_slice()),
            Tag::IntTag(value) => append(buf, i32_bytes(*value).as_slice()),
            Tag::LongTag(value) => append(buf, i64_bytes(*value).as_slice()),
            Tag::FloatTag(value) => append(buf, u32_bytes(*value).as_slice()),
            Tag::DoubleTag(value) => append(buf, u64_bytes(*value).as_slice()),
            Tag::ByteArray(value) => {
                let ghost items = numbers_i8(value@);
                write_count(buf, value.len());
                let ghost start = buf@;
                let mut i: usize = 0;
                while i < value.len()
                    invariant
                        i <= value.len(),
                        buf@ + packed(items, 1, i as nat) == start + packed(items, 1, 0),
                    decreases value.len() - i,
                {
                    let ghost before = buf@;
                    let byte = i8_byte(value[i]);
                    buf.push(byte);
                    assert(buf@ =~= before + seq![byte]);
                    assert(buf@ + packed(items, 1, (i + 1) as nat) =~= before + packed(
                        items,
                        1,
                        i as nat,
                    ));
                    i += 1;
                }
                assert(buf@ =~= old(buf)@ + payload(self@));
            },
            Tag::StringTag(value) => write_string(buf, value.as_str()),
            Tag::ListTag(value) => {
                proof {
                    list_view_each(*value);
                }
                let ghost items = self@->List_0;
                let type_byte = if value.len() > 0 {
                    value[0].get_type()
                } else {
                    0x00
                };
                buf.push(type_byte);
                write_count(buf, value.len());
                let ghost start = buf@;
                assert(start =~= old(buf)@ + seq![item_kind(items)] + count_bytes(items.len()));
                let mut i: usize = 0;
                while i < value.len()
                    invariant
                        i <= value.len(),
                        buf@ + payloads_from(items, i as nat) == start + payloads_from(items, 0),
                        forall|j: int| 0 <= j < i ==> (#[trigger] items[j]).well_formed(),
                    decreases value.len() - i,
                {
                    let ghost before = buf@;
                    proof {
                        vstd::std_specs::vec::axiom_vec_index_decreases(*value, i as int);
                    }
                    assert(items[i as int].fits());
                    value[i].write_element(buf);
                    assert(buf@ + payloads_from(items, (i + 1) as nat) =~= before + payloads_from(
                        items,
                        i as nat,
                    ));
                    i += 1;
                }
                assert(buf@ =~= old(buf)@ + payload(self@));
            },
            Tag::CompoundTag(value) => {
                proof {
                    value.view_of_tag();
                }
                Tag::write_entries(value, buf);
                buf.push(0x00);
                assert(buf@ =~= old(buf)@ + payload(self@));
            },
            Tag::IntArray(value) => {
                let ghost items = numbers_i32(value@);
                write_count(buf, value.len());
                let ghost start = buf@;
                let mut i: usize = 0;
                while i < value.len()
                    invariant
                        i <= value.len(),
                        buf@ + packed(items, 4, i as nat) == start + packed(items, 4, 0),
                    decreases value.len() - i,
                {
                    let ghost before = buf@;
                    append(buf, i32_bytes(value[i]).as_slice());
                    assert(buf@ + packed(items, 4, (i + 1) as nat) =~= before + packed(
                        items,
                        4,
                        i as nat,
                    ));
                    i += 1;
                }
                assert(buf@ =~= old(buf)@ + payload(self@));
            },
            Tag::LongArray(value) => {
                let ghost items = numbers_i64(value@);
                write_count(buf, value.len());
                let ghost start = buf@;
                let mut i: usize = 0;
                while i < value.len()
                    invariant
                        i <= value.len(),
                        buf@ + packed(items, 8, i as nat) == start + packed(items, 8, 0),
                    decreases value.len() - i,
                {
                    let ghost before = buf@;
                    append(buf, i64_bytes(value[i]).as_slice());
                    assert(buf@ + packed(items, 8, (i + 1) as nat) =~= before + packed(
                        items,
                        8,
                        i as nat,
                    ));
                    i += 1;
                }
                assert(buf@ =~= old(buf)@ + payload(self@));
            },
        }
    }

    /// Writes the tree as a document at the end of `buf`: the entries of the
    /// root compound, one after the other, with no header before them and no
    /// end byte after them. A tree that is not writable leaves `buf` as it
    /// was: `InvalidType` where the root is no compound or a list holds items
    /// of more than one kind, `IoError` where only a length does not fit.
    /// What was written reads as the tree.
    pub fn write(&self, buf: &mut Vec<u8>) -> (done: Result<(), TagError>)
        ensures
            done is Ok <==> self@.writable(),
            done is Ok ==> final(buf)@ == old(buf)@ + document(self@) && self@.well_formed(),
            done is Ok ==> read_document(document(self@)) == Ok::<_, Failure>(self@),
            done is Err ==> final(buf)@ == old(buf)@,
            done matches Err(e) ==> e == (if self@ is Compound && self@.uniform() {
                TagError::IoError
            } else {
                TagError::InvalidType
            }),
    {
        match self {
            Tag::CompoundTag(value) => {
                if !self.is_uniform() {
                    return Err(TagError::InvalidType);
                }
                if !self.fits() {
                    return Err(TagError::IoError);
                }
                proof {
                    value.view_of_tag();
                }
                Tag::write_entries(value, buf);
                proof {
                    read_inverts_write(self@);
                }
                Ok(())
            },
            _ => Err(TagError::InvalidType),
        }
    }
}

} // verus!
