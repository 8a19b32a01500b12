//! What a sequence of bytes holds as a tag tree, and the reader that finds it.

use crate::bytes::{
    be_value, byte_i8, i16_at, i32_at, i64_at, signed, span_values, u16_at, u32_at, u64_at,
};
use crate::laws::read_gives_writable;
use crate::model::{with_entry, TagView};
use crate::tag::{list_view_each, Compound, Tag, TagError};
use crate::text::text_of;
use crate::write::MAX_COUNT;
use vstd::prelude::*;
use vstd::slice::{slice_subrange, slice_to_vec};
use vstd::utf8::{decode_utf8, valid_utf8};

verus! {

/// Why bytes hold no tag tree.
pub enum Failure {
    /// A type byte that names no kind, or a kind that may not stand where it does.
    InvalidType,
    /// These bytes of a string are not UTF-8.
    InvalidUtf8(Seq<u8>),
    /// The bytes end too early, or a count is negative.
    IoError,
}

impl View for TagError {
    type V = Failure;

    open spec fn view(&self) -> Failure {
        match self {
            TagError::InvalidType => Failure::InvalidType,
            TagError::InvalidUtf8(bytes) => Failure::InvalidUtf8(bytes@),
            TagError::IoError => Failure::IoError,
        }
    }
}

/// What is read off the front of some bytes: a value and the bytes that
/// follow it, or a failure.
pub type Read<T> = Result<(T, Seq<u8>), Failure>;

/// A string: two bytes that give a length, then as many bytes of UTF-8.
pub open spec fn read_text(bytes: Seq<u8>) -> Read<Seq<char>> {
    if bytes.len() < 2 {
        Err(Failure::IoError)
    } else {
        let count = be_value(bytes.subrange(0, 2));
        if bytes.len() < 2 + count {
            Err(Failure::IoError)
        } else {
            let raw = bytes.subrange(2, 2 + count as int);
            if valid_utf8(raw) {
                Ok((decode_utf8(raw), bytes.skip(2 + count as int)))
            } else {
                Err(Failure::InvalidUtf8(raw))
            }
        }
    }
}

/// The number of items of an array or a list: four bytes in two's
/// complement. A negative number is a failure.
pub open spec fn read_count(bytes: Seq<u8>) -> Read<nat> {
    if bytes.len() < 4 {
        Err(Failure::IoError)
    } else {
        let count = signed(be_value(bytes.subrange(0, 4)), 4);
        if count < 0 {
            Err(Failure::IoError)
        } else {
            Ok((count as nat, bytes.skip(4)))
        }
    }
}

/// The number for which the `width` bytes of item `at` stand.
pub open spec fn item_at(bytes: Seq<u8>, at: int, width: nat) -> int {
    signed(be_value(bytes.subrange(at * width, at * width + width)), width)
}

/// `count` items of a byte array.
pub open spec fn read_bytes(count: nat, bytes: Seq<u8>) -> Read<Seq<i8>> {
    if bytes.len() < count {
        Err(Failure::IoError)
    } else {
        Ok((Seq::new(count, |i: int| item_at(bytes, i, 1) as i8), bytes.skip(count as int)))
    }
}

/// `count` items of an int array.
pub open spec fn read_ints(count: nat, bytes: Seq<u8>) -> Read<Seq<i32>> {
    if bytes.len() < 4 * count {
        Err(Failure::IoError)
    } else {
        Ok((Seq::new(count, |i: int| item_at(bytes, i, 4) as i32), bytes.skip(4 * count as int)))
    }
}

/// `count` items of a long array.
pub open spec fn read_longs(count: nat, bytes: Seq<u8>) -> Read<Seq<i64>> {
    if bytes.len() < 8 * count {
        Err(Failure::IoError)
    } else {
        Ok((Seq::new(count, |i: int| item_at(bytes, i, 8) as i64), bytes.skip(8 * count as int)))
    }
}

/// The entries of a compound, put one by one into `found`. Inside a document
/// (`nested`) the entries end with a byte 0; those of the document itself end
/// where the bytes end, and a byte 0 is no type there. An entry is a type
/// byte from 1 to 12, a name, and the payload of that kind. A name that is
/// read again keeps its place and takes the later value.
///
/// A payload takes at least one byte, so the bytes that follow an entry are
/// always fewer than those it was read from, and the last case never comes.
pub open spec fn read_entries(bytes: Seq<u8>, found: Seq<(Seq<char>, TagView)>, nested: bool) -> Read<
    Seq<(Seq<char>, TagView)>,
>
    decreases bytes.len(), 0nat,
{
    if bytes.len() == 0 {
        if nested {
            Err(Failure::IoError)
        } else {
            Ok((found, bytes))
        }
    } else if bytes[0] == 0 {
        if nested {
            Ok((found, bytes.skip(1)))
        } else {
            Err(Failure::InvalidType)
        }
    } else if bytes[0] > 12 {
        Err(Failure::InvalidType)
    } else {
        match read_text(bytes.skip(1)) {
            Err(e) => Err(e),
            Ok((name, rest)) => match read_payload(bytes[0], rest) {
                Err(e) => Err(e),
                Ok((value, rest)) => if rest.len() < bytes.len() {
                    read_entries(rest, with_entry(found, name, value), nested)
                } else {
                    Err(Failure::IoError)
                },
            },
        }
    }
}

/// The payload of a value of the kind `kind`. A kind outside 1 to 12 is a
/// failure. A list is a type byte from 0 to 12 for its items, a count, and
/// as many payloads of that kind; a list that has items and declares the type
/// byte 0 for them is a failure.
pub open spec fn read_payload(kind: u8, bytes: Seq<u8>) -> Read<TagView>
    decreases bytes.len(), 1nat,
{
    if kind == 1 {
        if bytes.len() < 1 {
            Err(Failure::IoError)
        } else {
            Ok((TagView::Byte(item_at(bytes, 0, 1) as i8), bytes.skip(1)))
        }
    } else if kind == 2 {
        if bytes.len() < 2 {
            Err(Failure::IoError)
        } else {
            Ok((TagView::Short(item_at(bytes, 0, 2) as i16), bytes.skip(2)))
        }
    } else if kind == 3 {
        if bytes.len() < 4 {
            Err(Failure::IoError)
        } else {
            Ok((TagView::Int(item_at(bytes, 0, 4) as i32), bytes.skip(4)))
        }
    } else if kind == 4 {
        if bytes.len() < 8 {
            Err(Failure::IoError)
        } else {
            Ok((TagView::Long(item_at(bytes, 0, 8) as i64), bytes.skip(8)))
        }
    } else if kind == 5 {
        if bytes.len() < 4 {
            Err(Failure::IoError)
        } else {
            Ok((TagView::Float(be_value(bytes.subrange(0, 4)) as u32), bytes.skip(4)))
        }
    } else if kind == 6 {
        if bytes.len() < 8 {
            Err(Failure::IoError)
        } else {
            Ok((TagView::Double(be_value(bytes.subrange(0, 8)) as u64), bytes.skip(8)))
        }
    } else if kind == 7 {
        match read_count(bytes) {
            Err(e) => Err(e),
            Ok((count, rest)) => match read_bytes(count, rest) {
                Err(e) => Err(e),
                Ok((items, rest)) => Ok((TagView::ByteArray(items), rest)),
            },
        }
    } else if kind == 8 {
        match read_text(bytes) {
            Err(e) => Err(e),
            Ok((text, rest)) => Ok((TagView::Text(text), rest)),
        }
    } else if kind == 9 {
        if bytes.len() < 1 {
            Err(Failure::IoError)
        } else if bytes[0] > 12 {
            Err(Failure::InvalidType)
        } else {
            match read_count(bytes.skip(1)) {
                Err(e) => Err(e),
                Ok((count, rest)) => if count > 0 && bytes[0] == 0 {
                    Err(Failure::InvalidType)
                } else {
                    match read_items(bytes[0], count, rest, Seq::empty()) {
                        Err(e) => Err(e),
                        Ok((items, rest)) => Ok((TagView::List(items), rest)),
                    }
                },
            }
        }
    } else if kind == 10 {
        match read_entries(bytes, Seq::empty(), true) {
            Err(e) => Err(e),
            Ok((entries, rest)) => Ok((TagView::Compound(entries), rest)),
        }
    } else if kind == 11 {
        match read_count(bytes) {
            Err(e) => Err(e),
            Ok((count, rest)) => match read_ints(count, rest) {
                Err(e) => Err(e),
                Ok((items, rest)) => Ok((TagView::IntArray(items), rest)),
            },
        }
    } else if kind == 12 {
        match read_count(bytes) {
            Err(e) => Err(e),
            Ok((count, rest)) => match read_longs(count, rest) {
                Err(e) => Err(e),
                Ok((items, rest)) => Ok((TagView::LongArray(items), rest)),
            },
        }
    } else {
        Err(Failure::InvalidType)
    }
}

/// `count` more items of a list, each the payload of a value of the kind
/// `kind`, put one by one at the end of `found`.
///
/// A payload takes at least one byte, so the bytes that follow an item are
/// always fewer than those it was read from, and the last case never comes.
pub open spec fn read_items(kind: u8, count: nat, bytes: Seq<u8>, found: Seq<TagView>) -> Read<
    Seq<TagView>,
>
    decreases bytes.len(), 2nat, count,
{
    if count == 0 {
        Ok((found, bytes))
    } else {
        match read_payload(kind, bytes) {
            Err(e) => Err(e),
            Ok((value, rest)) => if rest.len() < bytes.len() {
                read_items(kind, (count - 1) as nat, rest, found.push(value))
            } else {
                Err(Failure::IoError)
            },
        }
    }
}

/// A document: entries up to the end of the bytes, which make the root
/// compound.
pub open spec fn read_document(bytes: Seq<u8>) -> Result<TagView, Failure> {
    match read_entries(bytes, Seq::empty(), false) {
        Err(e) => Err(e),
        Ok((entries, _)) => Ok(TagView::Compound(entries)),
    }
}

/// The `count` bytes from place `pos` on, if there are as many.
fn take<'a>(bytes: &'a [u8], pos: usize, count: usize) -> (part: Option<&'a [u8]>)
    requires
        pos <= bytes@.len(),
    ensures
        part is Some <==> pos + count <= bytes@.len(),
        part matches Some(s) ==> s@ == bytes@.subrange(pos as int, pos + count),
        bytes@.len() <= usize::MAX,
{
    if count <= bytes.len() - pos {
        Some(slice_subrange(bytes, pos, pos + count))
    } else {
        None
    }
}

/// Reads a string at `pos`; gives it with the place after it.
fn read_text_at(bytes: &[u8], pos: usize) -> (r: Result<(String, usize), TagError>)
    requires
        pos <= bytes@.len(),
    ensures
        match r {
            Ok((text, next)) => pos < next <= bytes@.len() && read_text(bytes@.skip(pos as int))
                == Ok::<_, Failure>((text@, bytes@.skip(next as int))),
            Err(e) => read_text(bytes@.skip(pos as int)) == Err::<(Seq<char>, Seq<u8>), _>(e@),
        },
{
    let ghost from = bytes@.skip(pos as int);
    let head = match take(bytes, pos, 2) {
        Some(head) => head,
        None => return Err(TagError::IoError),
    };
    let count = u16_at(head) as usize;
    assert(head@.subrange(0, 2) =~= from.subrange(0, 2));
    let raw = match take(bytes, pos + 2, count) {
        Some(raw) => raw,
        None => return Err(TagError::IoError),
    };
    assert(raw@ =~= from.subrange(2, 2 + count));
    assert(bytes@.skip(pos + 2 + count) =~= from.skip(2 + count));
    match text_of(raw) {
        Some(text) => Ok((text, pos + 2 + count)),
        None => Err(TagError::InvalidUtf8(slice_to_vec(raw))),
    }
}

/// Reads a count at `pos`; gives it with the place after it.
fn read_count_at(bytes: &[u8], pos: usize) -> (r: Result<(usize, usize), TagError>)
    requires
        pos <= bytes@.len(),
    ensures
        match r {
            Ok((count, next)) => next == pos + 4 && next <= bytes@.len() && count <= MAX_COUNT
                && read_count(bytes@.skip(pos as int)) == Ok::<_, Failure>(
                (count as nat, bytes@.skip(next as int)),
            ),
            Err(e) => read_count(bytes@.skip(pos as int)) == Err::<(nat, Seq<u8>), _>(e@),
        },
{
    let ghost from = bytes@.skip(pos as int);
    let head = match take(bytes, pos, 4) {
        Some(head) => head,
        None => return Err(TagError::IoError),
    };
    let count = i32_at(head);
    proof {
        span_values();
        crate::bytes::be_value_bound(head@.subrange(0, 4));
    }
    assert(head@.subrange(0, 4) =~= from.subrange(0, 4));
    assert(bytes@.skip(pos + 4) =~= from.skip(4));
    if count < 0 {
        Err(TagError::IoError)
    } else {
        Ok((count as usize, pos + 4))
    }
}

/// Reads `count` items of a byte array at `pos`.
#[verifier::loop_isolation(false)]
fn read_bytes_at(bytes: &[u8], pos: usize, count: usize) -> (r: Result<(Vec<i8>, usize), TagError>)
    requires
        pos <= bytes@.len(),
    ensures
        match r {
            Ok((items, next)) => pos <= next <= bytes@.len() && read_bytes(
                count as nat,
                bytes@.skip(pos as int),
            ) == Ok::<_, Failure>((items@, bytes@.skip(next as int))),
            Err(e) => read_bytes(count as nat, bytes@.skip(pos as int)) == Err::<
                (Seq<i8>, Seq<u8>),
                _,
            >(e@),
        },
{
    let ghost from = bytes@.skip(pos as int);
    let raw = match take(bytes, pos, count) {
        Some(raw) => raw,
        None => return Err(TagError::IoError),
    };
    let mut items: Vec<i8> = Vec::new();
    let mut i: usize = 0;
    while i < count
        invariant
            i <= count,
            items@.len() == i,
            forall|j: int| 0 <= j < i ==> #[trigger] items@[j] == item_at(from, j, 1) as i8,
        decreases count - i,
    {
        let item = byte_i8(raw[i]);
        assert(from.subrange(i * 1, i * 1 + 1) =~= seq![raw@[i as int]]);
        items.push(item);
        i += 1;
    }
    assert(items@ =~= Seq::new(count as nat, |i: int| item_at(from, i, 1) as i8));
    assert(bytes@.skip(pos + count) =~= from.skip(count as int));
    Ok((items, pos + count))
}

/// Reads `count` items of an int array at `pos`.
#[verifier::loop_isolation(false)]
fn read_ints_at(bytes: &[u8], pos: usize, count: usize) -> (r: Result<(Vec<i32>, usize), TagError>)
    requires
        pos <= bytes@.len(),
        count <= MAX_COUNT,
    ensures
        match r {
            Ok((items, next)) => pos <= next <= bytes@.len() && read_ints(
                count as nat,
                bytes@.skip(pos as int),
            ) == Ok::<_, Failure>((items@, bytes@.skip(next as int))),
            Err(e) => read_ints(count as nat, bytes@.skip(pos as int)) == Err::<
                (Seq<i32>, Seq<u8>),
                _,
            >(e@),
        },
{
    let ghost from = bytes@.skip(pos as int);
    if ((bytes.len() - pos) as u64) < 4 * (count as u64) {
        return Err(TagError::IoError);
    }
    let mut items: Vec<i32> = Vec::new();
    let mut i: usize = 0;
    while i < count
        invariant
            i <= count,
            items@.len() == i,
            forall|j: int| 0 <= j < i ==> #[trigger] items@[j] == item_at(from, j, 4) as i32,
        decreases count - i,
    {
        let part = slice_subrange(bytes, pos + 4 * i, pos + 4 * i + 4);
        let item = i32_at(part);
        assert(from.subrange(i * 4, i * 4 + 4) =~= part@.subrange(0, 4));
        items.push(item);
        i += 1;
    }
    assert(items@ =~= Seq::new(count as nat, |i: int| item_at(from, i, 4) as i32));
    assert(bytes@.skip(pos + 4 * count) =~= from.skip(4 * count));
    Ok((items, pos + 4 * count))
}

/// Reads `count` items of a long array at `pos`.
#[verifier::loop_isolation(false)]
fn read_longs_at(bytes: &[u8], pos: usize, count: usize) -> (r: Result<(Vec<i64>, usize), TagError>)
    requires
        pos <= bytes@.len(),
        count <= MAX_COUNT,
    ensures
        match r {
            Ok((items, next)) => pos <= next <= bytes@.len() && read_longs(
                count as nat,
                bytes@.skip(pos as int),
            ) == Ok::<_, Failure>((items@, bytes@.skip(next as int))),
            Err(e) => read_longs(count as nat, bytes@.skip(pos as int)) == Err::<
                (Seq<i64>, Seq<u8>),
                _,
            >(e@),
        },
{
    let ghost from = bytes@.skip(pos as int);
    if ((bytes.len() - pos) as u64) < 8 * (count as u64) {
        return Err(TagError::IoError);
    }
    let mut items: Vec<i64> = Vec::new();
    let mut i: usize = 0;
    while i < count
        invariant
            i <= count,
            items@.len() == i,
            forall|j: int| 0 <= j < i ==> #[trigger] items@[j] == item_at(from, j, 8) as i64,
        decreases count - i,
    {
        let part = slice_subrange(bytes, pos + 8 * i, pos + 8 * i + 8);
        let item = i64_at(part);
        assert(from.subrange(i * 8, i * 8 + 8) =~= part@.subrange(0, 8));
        items.push(item);
        i += 1;
    }
    assert(items@ =~= Seq::new(count as nat, |i: int| item_at(from, i, 8) as i64));
    assert(bytes@.skip(pos + 8 * count) =~= from.skip(8 * count));
    Ok((items, pos + 8 * count))
}

/// Reads entries at `pos` until they end; gives the compound that they make
/// with the place after them.
#[verifier::loop_isolation(false)]
fn read_entries_at(bytes: &[u8], pos: usize, nested: bool) -> (r: Result<(Compound, usize), TagError>)
    requires
        pos <= bytes@.len(),
    ensures
        match r {
            Ok((found, next)) => pos <= next <= bytes@.len() && (nested ==> pos < next)
                && read_entries(bytes@.skip(pos as int), Seq::empty(), nested) == Ok::<_, Failure>(
                (found@, bytes@.skip(next as int)),
            ),
            Err(e) => read_entries(bytes@.skip(pos as int), Seq::empty(), nested) == Err::<
                (Seq<(Seq<char>, TagView)>, Seq<u8>),
                _,
            >(e@),
        },
    decreases bytes@.len() - pos, 0nat,
{
    let ghost whole = read_entries(bytes@.skip(pos as int), Seq::empty(), nested);
    let mut found = Compound::new();
    let mut at: usize = pos;
    loop
        invariant
            pos <= at <= bytes@.len(),
            whole == read_entries(bytes@.skip(at as int), found@, nested),
        decreases bytes@.len() - at,
    {
        let ghost from = bytes@.skip(at as int);
        if at == bytes.len() {
            if nested {
                return Err(TagError::IoError);
            } else {
                return Ok((found, at));
            }
        }
        let kind = bytes[at];
        assert(from[0] == kind);
        assert(bytes@.skip(at + 1) =~= from.skip(1));
        if kind == 0 {
            if nested {
                return Ok((found, at + 1));
            } else {
                return Err(TagError::InvalidType);
            }
        }
        if kind > 12 {
            return Err(TagError::InvalidType);
        }
        let (name, after_name) = match read_text_at(bytes, at + 1) {
            Ok(pair) => pair,
            Err(e) => return Err(e),
        };
        let (value, after_value) = match read_payload_at(bytes, after_name, kind) {
            Ok(pair) => pair,
            Err(e) => return Err(e),
        };
        found.insert(name, value);
        at = after_value;
    }
}

/// Reads the payload of a value of the kind `kind` at `pos`; gives the tag
/// with the place after it.
#[verifier::loop_isolation(false)]
fn read_payload_at(bytes: &[u8], pos: usize, kind: u8) -> (r: Result<(Tag, usize), TagError>)
    requires
        pos <= bytes@.len(),
    ensures
        match r {
            Ok((tag, next)) => pos < next <= bytes@.len() && read_payload(
                kind,
                bytes@.skip(pos as int),
            ) == Ok::<_, Failure>((tag@, bytes@.skip(next as int))),
            Err(e) => read_payload(kind, bytes@.skip(pos as int)) == Err::<(TagView, Seq<u8>), _>(
                e@,
            ),
        },
    decreases bytes@.len() - pos, 1nat,
{
    let ghost from = bytes@.skip(pos as int);
    proof {
        span_values();
    }
    if kind == 1 {
        let part = match take(bytes, pos, 1) {
            Some(part) => part,
            None => return Err(TagError::IoError),
        };
        let value = byte_i8(part[0]);
        assert(from.subrange(0int * 1, 0int * 1 + 1) =~= seq![part@[0]]);
        assert(bytes@.skip(pos + 1) =~= from.skip(1));
        Ok((Tag::ByteTag(value), pos + 1))
    } else if kind == 2 {
        let part = match take(bytes, pos, 2) {
            Some(part) => part,
            None => return Err(TagError::IoError),
        };
        let value = i16_at(part);
        assert(from.subrange(0int * 2, 0int * 2 + 2) =~= part@.subrange(0, 2));
        assert(bytes@.skip(pos + 2) =~= from.skip(2));
        Ok((Tag::ShortTag(value), pos + 2))
    } else if kind == 3 {
        let part = match take(bytes, pos, 4) {
            Some(part) => part,
            None => return Err(TagError::IoError),
        };
        let value = i32_at(part);
        assert(from.subrange(0int * 4, 0int * 4 + 4) =~= part@.subrange(0, 4));
        assert(bytes@.skip(pos + 4) =~= from.skip(4));
        Ok((Tag::IntTag(value), pos + 4))
    } else if kind == 4 {
        let part = match take(bytes, pos, 8) {
            Some(part) => part,
            None => return Err(TagError::IoError),
        };
        let value = i64_at(part);
        assert(from.subrange(0int * 8, 0int * 8 + 8) =~= part@.subrange(0, 8));
        assert(bytes@.skip(pos + 8) =~= from.skip(8));
        Ok((Tag::LongTag(value), pos + 8))
    } else if kind == 5 {
        let part = match take(bytes, pos, 4) {
            Some(part) => part,
            None => return Err(TagError::IoError),
        };
        let value = u32_at(part);
        assert(from.subrange(0, 4) =~= part@.subrange(0, 4));
        assert(bytes@.skip(pos + 4) =~= from.skip(4));
        Ok((Tag::FloatTag(value), pos + 4))
    } else if kind == 6 {
        let part = match take(bytes, pos, 8) {
            Some(part) => part,
            None => return Err(TagError::IoError),
        };
        let value = u64_at(part);
        assert(from.subrange(0, 8) =~= part@.subrange(0, 8));
        assert(bytes@.skip(pos + 8) =~= from.skip(8));
        Ok((Tag::DoubleTag(value), pos + 8))
    } else if kind == 7 {
        let (count, after_count) = match read_count_at(bytes, pos) {
            Ok(pair) => pair,
            Err(e) => return Err(e),
        };
        match read_bytes_at(bytes, after_count, count) {
            Ok((items, next)) => Ok((Tag::ByteArray(items), next)),
            Err(e) => Err(e),
        }
    } else if kind == 8 {
        match read_text_at(bytes, pos) {
            Ok((text, next)) => Ok((Tag::StringTag(text), next)),
            Err(e) => Err(e),
        }
    } else if kind == 9 {
        if pos == bytes.len() {
            return Err(TagError::IoError);
        }
        let item_kind = bytes[pos];
        assert(from[0] == item_kind);
        assert(bytes@.skip(pos + 1) =~= from.skip(1));
        if item_kind > 12 {
            return Err(TagError::InvalidType);
        }
        let (count, after_count) = match read_count_at(bytes, pos + 1) {
            Ok(pair) => pair,
            Err(e) => return Err(e),
        };
        if count > 0 && item_kind == 0 {
            return Err(TagError::InvalidType);
        }
        let ghost whole = read_items(item_kind, count as nat, bytes@.skip(after_count as int), Seq::empty());
        let mut items: Vec<Tag> = Vec::new();
        let mut at: usize = after_count;
        let mut i: usize = 0;
        while i < count
            invariant
                i <= count,
                after_count <= at <= bytes@.len(),
                whole == read_items(
                    item_kind,
                    (count - i) as nat,
                    bytes@.skip(at as int),
                    Tag::ListTag(items)@->List_0,
                ),
            decreases count - i,
        {
            let ghost before = Tag::ListTag(items)@->List_0;
            proof {
                list_view_each(items);
            }
            let (item, next) = match read_payload_at(bytes, at, item_kind) {
                Ok(pair) => pair,
                Err(e) => return Err(e),
            };
            items.push(item);
            proof {
                list_view_each(items);
                assert(Tag::ListTag(items)@->List_0 =~= before.push(item@)) by {
                }
            }
            at = next;
            i += 1;
        }
        Ok((Tag::ListTag(items), at))
    } else if kind == 10 {
        match read_entries_at(bytes, pos, true) {
            Ok((found, next)) => {
                proof {
                    found.view_of_tag();
                }
                Ok((Tag::CompoundTag(found), next))
            },
            Err(e) => Err(e),
        }
    } else if kind == 11 {
        let (count, after_count) = match read_count_at(bytes, pos) {
            Ok(pair) => pair,
            Err(e) => return Err(e),
        };
        match read_ints_at(bytes, after_count, count) {
            Ok((items, next)) => Ok((Tag::IntArray(items), next)),
            Err(e) => Err(e),
        }
    } else if kind == 12 {
        let (count, after_count) = match read_count_at(bytes, pos) {
            Ok(pair) => pair,
            Err(e) => return Err(e),
        };
        match read_longs_at(bytes, after_count, count) {
            Ok((items, next)) => Ok((Tag::LongArray(items), next)),
            Err(e) => Err(e),
        }
    } else {
        Err(TagError::InvalidType)
    }
}

impl Tag {
    /// Reads a document: the entries of its root compound, one after the
    /// other, up to the end of `bytes`. The result is what `read_document`
    /// says of the bytes: the tree, or the first failure met on the way. A
    /// tree that was read can be written.
    pub fn read(bytes: &[u8]) -> (r: Result<Tag, TagError>)
        ensures
            match r {
                Ok(tag) => read_document(bytes@) == Ok::<_, Failure>(tag@),
                Err(e) => read_document(bytes@) == Err::<TagView, _>(e@),
            },
            r matches Ok(tag) ==> tag@.writable() && tag@.well_formed(),
    {
        assert(bytes@.skip(0) =~= bytes@);
        proof {
            read_gives_writable(bytes@);
        }
        match read_entries_at(bytes, 0, false) {
            Ok((found, _)) => {
                proof {
                    found.view_of_tag();
                }
                Ok(Tag::CompoundTag(found))
            },
            Err(e) => Err(e),
        }
    }
}

} // verus!
