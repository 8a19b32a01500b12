//! What holds of the reader and the writer together: reading gives back what
//! was written, and where a reading fails.

use crate::bytes::{
    be_bytes, be_bytes_len, be_value, be_value_bound, be_value_of_be_bytes, signed_of_unsigned,
    span, span_values, unsigned,
};
use crate::model::{distinct_keys, key_index_first, with_entry, with_entry_distinct, TagView};
use crate::read::{
    item_at, read_bytes, read_count, read_document, read_entries, read_ints, read_items,
    read_longs, read_payload, read_text, Failure,
};
use crate::write::{
    count_bytes, document, entries_from, entry_bytes, item_kind, numbers_i32, numbers_i64,
    numbers_i8, packed, payload, payloads_from, text_bytes, MAX_COUNT, MAX_TEXT,
};
use vstd::prelude::*;
use vstd::utf8::{encode_utf8, encode_utf8_decode_utf8, encode_utf8_valid_utf8};

verus! {

/// A string that was written is read back, and what follows it is left.
pub proof fn text_read_back(text: Seq<char>, tail: Seq<u8>)
    requires
        encode_utf8(text).len() <= MAX_TEXT,
    ensures
        read_text(text_bytes(text) + tail) == Ok::<_, Failure>((text, tail)),
{
    let encoded = encode_utf8(text);
    let count = encoded.len();
    let bytes = text_bytes(text) + tail;
    span_values();
    be_bytes_len(count, 2);
    be_value_of_be_bytes(count, 2);
    assert(bytes.subrange(0, 2) =~= be_bytes(count, 2));
    assert(bytes.subrange(2, 2 + count as int) =~= encoded);
    assert(bytes.skip(2 + count as int) =~= tail);
    encode_utf8_valid_utf8(text);
    encode_utf8_decode_utf8(text);
}

/// A count that was written is read back, and what follows it is left.
pub proof fn count_read_back(count: nat, tail: Seq<u8>)
    requires
        count <= MAX_COUNT,
    ensures
        read_count(count_bytes(count) + tail) == Ok::<_, Failure>((count, tail)),
{
    let bytes = count_bytes(count) + tail;
    span_values();
    be_bytes_len(count, 4);
    be_value_of_be_bytes(count, 4);
    assert(bytes.subrange(0, 4) =~= be_bytes(count, 4));
    assert(bytes.skip(4) =~= tail);
}

/// Packed items take `width` bytes each.
pub proof fn packed_len(items: Seq<int>, width: nat, from: nat)
    requires
        from <= items.len(),
    ensures
        packed(items, width, from).len() == width * (items.len() - from),
    decreases items.len() - from,
{
    if from < items.len() {
        be_bytes_len(unsigned(items[from as int], width), width);
        packed_len(items, width, from + 1);
        assert(width * (items.len() - from) == width + width * (items.len() - (from + 1)))
            by (nonlinear_arith);
    } else {
        assert(width * (items.len() - from) == 0) by (nonlinear_arith)
            requires
                items.len() - from == 0,
        ;
    }
}

/// Among packed items, the bytes of the item at place `at` stand at the
/// place that its number gives.
pub proof fn packed_item(items: Seq<int>, width: nat, from: nat, at: nat, tail: Seq<u8>)
    requires
        from <= at < items.len(),
    ensures
        (at - from) * width + width <= packed(items, width, from).len(),
        (packed(items, width, from) + tail).subrange(
            (at - from) * width,
            (at - from) * width + width,
        ) == be_bytes(unsigned(items[at as int], width), width),
    decreases at - from,
{
    let head = be_bytes(unsigned(items[from as int], width), width);
    let rest = packed(items, width, from + 1);
    be_bytes_len(unsigned(items[from as int], width), width);
    packed_len(items, width, from);
    packed_len(items, width, from + 1);
    let whole = packed(items, width, from) + tail;
    let lo = (at - from) * width;
    assert(lo + width <= width * (items.len() - from)) by (nonlinear_arith)
        requires
            from <= at < items.len(),
            lo == (at - from) * width,
    ;
    if at == from {
        assert(lo == 0) by (nonlinear_arith)
            requires
                lo == (at - from) * width,
                at == from,
        ;
        assert(whole.subrange(0, width as int) =~= head);
    } else {
        packed_item(items, width, from + 1, at, tail);
        let inner = (at - (from + 1)) * width;
        assert(lo == inner + width) by (nonlinear_arith)
            requires
                lo == (at - from) * width,
                inner == (at - (from + 1)) * width,
        ;
        assert(whole.subrange(lo, lo + width) =~= (rest + tail).subrange(inner, inner + width));
    }
}

/// A packed item is read back as the number that was packed.
pub proof fn packed_item_read_back(items: Seq<int>, width: nat, at: nat, tail: Seq<u8>)
    requires
        at < items.len(),
        width > 0,
        -(span(width) as int) <= 2 * items[at as int] < span(width),
    ensures
        item_at(packed(items, width, 0) + tail, at as int, width) == items[at as int],
{
    packed_item(items, width, 0, at, tail);
    signed_of_unsigned(items[at as int], width);
    be_value_of_be_bytes(unsigned(items[at as int], width), width);
    assert(at * width == (at - 0) * width);
}

/// A byte array that was written is read back.
pub proof fn bytes_read_back(items: Seq<i8>, tail: Seq<u8>)
    ensures
        read_bytes(items.len(), packed(numbers_i8(items), 1, 0) + tail) == Ok::<_, Failure>(
            (items, tail),
        ),
{
    let numbers = numbers_i8(items);
    let bytes = packed(numbers, 1, 0) + tail;
    span_values();
    packed_len(numbers, 1, 0);
    assert forall|i: int| 0 <= i < items.len() implies item_at(bytes, i, 1) as i8 == items[i] by {
        packed_item_read_back(numbers, 1, i as nat, tail);
    }
    assert(Seq::new(items.len(), |i: int| item_at(bytes, i, 1) as i8) =~= items);
    assert(bytes.skip(items.len() as int) =~= tail);
}

/// An int array that was written is read back.
pub proof fn ints_read_back(items: Seq<i32>, tail: Seq<u8>)
    ensures
        read_ints(items.len(), packed(numbers_i32(items), 4, 0) + tail) == Ok::<_, Failure>(
            (items, tail),
        ),
{
    let numbers = numbers_i32(items);
    let bytes = packed(numbers, 4, 0) + tail;
    span_values();
    packed_len(numbers, 4, 0);
    assert forall|i: int| 0 <= i < items.len() implies item_at(bytes, i, 4) as i32 == items[i] by {
        packed_item_read_back(numbers, 4, i as nat, tail);
    }
    assert(Seq::new(items.len(), |i: int| item_at(bytes, i, 4) as i32) =~= items);
    assert(bytes.skip(4 * items.len() as int) =~= tail);
}

/// A long array that was written is read back.
pub proof fn longs_read_back(items: Seq<i64>, tail: Seq<u8>)
    ensures
        read_longs(items.len(), packed(numbers_i64(items), 8, 0) + tail) == Ok::<_, Failure>(
            (items, tail),
        ),
{
    let numbers = numbers_i64(items);
    let bytes = packed(numbers, 8, 0) + tail;
    span_values();
    packed_len(numbers, 8, 0);
    assert forall|i: int| 0 <= i < items.len() implies item_at(bytes, i, 8) as i64 == items[i] by {
        packed_item_read_back(numbers, 8, i as nat, tail);
    }
    assert(Seq::new(items.len(), |i: int| item_at(bytes, i, 8) as i64) =~= items);
    assert(bytes.skip(8 * items.len() as int) =~= tail);
}

/// Every payload takes at least one byte.
pub proof fn payload_takes_bytes(value: TagView)
    ensures
        payload(value).len() >= 1,
{
    match value {
        TagView::Byte(n) => be_bytes_len(unsigned(n as int, 1), 1),
        TagView::Short(n) => be_bytes_len(unsigned(n as int, 2), 2),
        TagView::Int(n) => be_bytes_len(unsigned(n as int, 4), 4),
        TagView::Long(n) => be_bytes_len(unsigned(n as int, 8), 8),
        TagView::Float(bits) => be_bytes_len(bits as nat, 4),
        TagView::Double(bits) => be_bytes_len(bits as nat, 8),
        TagView::ByteArray(items) => be_bytes_len(items.len(), 4),
        TagView::Text(text) => be_bytes_len(encode_utf8(text).len(), 2),
        TagView::List(items) => {},
        TagView::Compound(entries) => {},
        TagView::IntArray(items) => be_bytes_len(items.len(), 4),
        TagView::LongArray(items) => be_bytes_len(items.len(), 4),
    }
}

/// The payload of a value that can be written is read back as that value,
/// and what follows it is left.
pub proof fn payload_read_back(value: TagView, tail: Seq<u8>)
    requires
        value.uniform(),
        value.fits(),
        value.well_formed(),
    ensures
        read_payload(value.kind(), payload(value) + tail) == Ok::<_, Failure>((value, tail)),
    decreases value, 0nat,
{
    let bytes = payload(value) + tail;
    span_values();
    match value {
        TagView::Byte(n) => {
            be_bytes_len(unsigned(n as int, 1), 1);
            signed_of_unsigned(n as int, 1);
            be_value_of_be_bytes(unsigned(n as int, 1), 1);
            assert(bytes.subrange(0int * 1, 0int * 1 + 1) =~= payload(value));
            assert(bytes.skip(1) =~= tail);
        },
        TagView::Short(n) => {
            be_bytes_len(unsigned(n as int, 2), 2);
            signed_of_unsigned(n as int, 2);
            be_value_of_be_bytes(unsigned(n as int, 2), 2);
            assert(bytes.subrange(0int * 2, 0int * 2 + 2) =~= payload(value));
            assert(bytes.skip(2) =~= tail);
        },
        TagView::Int(n) => {
            be_bytes_len(unsigned(n as int, 4), 4);
            signed_of_unsigned(n as int, 4);
            be_value_of_be_bytes(unsigned(n as int, 4), 4);
            assert(bytes.subrange(0int * 4, 0int * 4 + 4) =~= payload(value));
            assert(bytes.skip(4) =~= tail);
        },
        TagView::Long(n) => {
            be_bytes_len(unsigned(n as int, 8), 8);
            signed_of_unsigned(n as int, 8);
            be_value_of_be_bytes(unsigned(n as int, 8), 8);
            assert(bytes.subrange(0int * 8, 0int * 8 + 8) =~= payload(value));
            assert(bytes.skip(8) =~= tail);
        },
        TagView::Float(bits) => {
            be_bytes_len(bits as nat, 4);
            be_value_of_be_bytes(bits as nat, 4);
            assert(bytes.subrange(0, 4) =~= payload(value));
            assert(bytes.skip(4) =~= tail);
        },
        TagView::Double(bits) => {
            be_bytes_len(bits as nat, 8);
            be_value_of_be_bytes(bits as nat, 8);
            assert(bytes.subrange(0, 8) =~= payload(value));
            assert(bytes.skip(8) =~= tail);
        },
        TagView::ByteArray(items) => {
            let rest = packed(numbers_i8(items), 1, 0) + tail;
            assert(bytes =~= count_bytes(items.len()) + rest);
            count_read_back(items.len(), rest);
            bytes_read_back(items, tail);
        },
        TagView::Text(text) => {
            text_read_back(text, tail);
        },
        TagView::List(items) => {
            let rest = payloads_from(items, 0) + tail;
            let after_kind = count_bytes(items.len()) + rest;
            be_bytes_len(items.len(), 4);
            assert(bytes =~= seq![item_kind(items)] + after_kind);
            assert(bytes[0] == item_kind(items));
            assert(bytes.skip(1) =~= after_kind);
            count_read_back(items.len(), rest);
            assert(items.subrange(0, 0) =~= Seq::<TagView>::empty());
            if items.len() == 0 {
                assert(rest =~= tail);
                assert(items =~= Seq::<TagView>::empty());
            } else {
                items_read_through(items, 0, items[0].kind(), 0, tail);
            }
        },
        TagView::Compound(entries) => {
            let end = seq![0u8] + tail;
            assert(bytes =~= entries_from(entries, 0) + end);
            assert(entries.subrange(0, 0) =~= Seq::<(Seq<char>, TagView)>::empty());
            entries_read_through(entries, 0, true, end);
            assert(end.skip(1) =~= tail);
        },
        TagView::IntArray(items) => {
            let rest = packed(numbers_i32(items), 4, 0) + tail;
            assert(bytes =~= count_bytes(items.len()) + rest);
            count_read_back(items.len(), rest);
            ints_read_back(items, tail);
        },
        TagView::LongArray(items) => {
            let rest = packed(numbers_i64(items), 8, 0) + tail;
            assert(bytes =~= count_bytes(items.len()) + rest);
            count_read_back(items.len(), rest);
            longs_read_back(items, tail);
        },
    }
}

/// The items of a list can be written and are all of the kind `kind`.
pub open spec fn items_sound(items: Seq<TagView>, kind: u8) -> bool {
    forall|i: int|
        0 <= i < items.len() ==> (#[trigger] items[i]).kind() == kind && items[i].uniform()
            && items[i].fits() && items[i].well_formed()
}

/// The entries of a compound can be written, and no name stands twice.
pub open spec fn entries_sound(entries: Seq<(Seq<char>, TagView)>) -> bool {
    &&& distinct_keys(entries)
    &&& forall|i: int|
        0 <= i < entries.len() ==> encode_utf8((#[trigger] entries[i]).0).len() <= MAX_TEXT
            && entries[i].1.uniform() && entries[i].1.fits() && entries[i].1.well_formed()
}

/// Reading items that were written goes through them, whatever follows:
/// what is read after them is read as if they had been found already.
pub proof fn items_read_through(
    items: Seq<TagView>,
    from: nat,
    kind: u8,
    more: nat,
    rest: Seq<u8>,
)
    requires
        from <= items.len(),
        items_sound(items, kind),
    ensures
        read_items(
            kind,
            (items.len() - from + more) as nat,
            payloads_from(items, from) + rest,
            items.subrange(0, from as int),
        ) == read_items(kind, more, rest, items),
    decreases items, items.len() - from,
{
    let found = items.subrange(0, from as int);
    if from == items.len() {
        assert(found =~= items);
        assert(payloads_from(items, from) + rest =~= rest);
    } else {
        let item = items[from as int];
        let after = payloads_from(items, from + 1) + rest;
        let bytes = payloads_from(items, from) + rest;
        assert(bytes =~= payload(item) + after);
        payload_read_back(item, after);
        payload_takes_bytes(item);
        assert(found.push(item) =~= items.subrange(0, from + 1 as int));
        items_read_through(items, from + 1, kind, more, rest);
    }
}

/// Reading entries that were written goes through them, whatever follows:
/// what is read after them is read as if they had been found already.
pub proof fn entries_read_through(
    entries: Seq<(Seq<char>, TagView)>,
    from: nat,
    nested: bool,
    rest: Seq<u8>,
)
    requires
        from <= entries.len(),
        entries_sound(entries),
    ensures
        read_entries(entries_from(entries, from) + rest, entries.subrange(0, from as int), nested)
            == read_entries(rest, entries, nested),
    decreases entries, entries.len() - from,
{
    let found = entries.subrange(0, from as int);
    let bytes = entries_from(entries, from) + rest;
    if from == entries.len() {
        assert(found =~= entries);
        assert(bytes =~= rest);
    } else {
        let name = entries[from as int].0;
        let value = entries[from as int].1;
        let after = entries_from(entries, from + 1) + rest;
        let after_name = payload(value) + after;
        let after_kind = text_bytes(name) + after_name;
        assert(entry_bytes(name, value) == seq![value.kind()] + text_bytes(name) + payload(value));
        assert(entries_from(entries, from) == entry_bytes(name, value) + entries_from(
            entries,
            from + 1,
        ));
        assert(bytes =~= seq![value.kind()] + after_kind);
        assert(bytes[0] == value.kind());
        assert(bytes.skip(1) =~= after_kind);
        text_read_back(name, after_name);
        payload_read_back(value, after);
        payload_takes_bytes(value);
        assert forall|j: int| 0 <= j < found.len() implies (#[trigger] found[j]).0 != name by {
            assert(found[j] == entries[j]);
        }
        key_index_first(found, name, from as int);
        assert(with_entry(found, name, value) =~= entries.subrange(0, from + 1 as int));
        entries_read_through(entries, from + 1, nested, rest);
    }
}

/// Reading gives back what was written: the document of a tree that can be
/// written, and in which no compound holds a name twice, reads as that tree.
pub proof fn read_inverts_write(root: TagView)
    requires
        root.writable(),
        root.well_formed(),
    ensures
        read_document(document(root)) == Ok::<_, Failure>(root),
{
    let entries = root->Compound_0;
    assert(entries.subrange(0, 0) =~= Seq::<(Seq<char>, TagView)>::empty());
    assert(document(root) =~= entries_from(entries, 0) + Seq::<u8>::empty());
    entries_read_through(entries, 0, false, Seq::empty());
}

/// A list without items is written as the type byte 0 and the count 0.
pub proof fn empty_list_written()
    ensures
        payload(TagView::List(Seq::empty())) == seq![0u8, 0u8, 0u8, 0u8, 0u8],
{
    reveal_with_fuel(be_bytes, 5);
    assert(payload(TagView::List(Seq::empty())) =~= seq![0u8, 0u8, 0u8, 0u8, 0u8]);
}

/// A list with the count 0 is read as a list without items, whatever kind
/// from 0 to 12 it declares for them.
pub proof fn empty_list_read(kind: u8, tail: Seq<u8>)
    requires
        kind <= 12,
    ensures
        read_payload(9, seq![kind] + count_bytes(0) + tail) == Ok::<_, Failure>(
            (TagView::List(Seq::empty()), tail),
        ),
{
    let bytes = seq![kind] + count_bytes(0) + tail;
    be_bytes_len(0, 4);
    assert(bytes.skip(1) =~= count_bytes(0) + tail);
    count_read_back(0, tail);
}

/// A type byte above 12 where an entry starts is `InvalidType`, after any
/// entries that read well: in a document, and in a compound at any depth.
pub proof fn unknown_entry_kind(
    entries: Seq<(Seq<char>, TagView)>,
    nested: bool,
    kind: u8,
    rest: Seq<u8>,
)
    requires
        entries_sound(entries),
        kind > 12,
    ensures
        read_entries(entries_from(entries, 0) + seq![kind] + rest, Seq::empty(), nested) == Err::<
            (Seq<(Seq<char>, TagView)>, Seq<u8>),
            _,
        >(Failure::InvalidType),
        !nested ==> read_document(entries_from(entries, 0) + seq![kind] + rest) == Err::<
            TagView,
            _,
        >(Failure::InvalidType),
        nested ==> read_payload(10, entries_from(entries, 0) + seq![kind] + rest) == Err::<
            (TagView, Seq<u8>),
            _,
        >(Failure::InvalidType),
{
    let bad = seq![kind] + rest;
    assert(entries_from(entries, 0) + seq![kind] + rest =~= entries_from(entries, 0) + bad);
    assert(entries.subrange(0, 0) =~= Seq::<(Seq<char>, TagView)>::empty());
    entries_read_through(entries, 0, nested, bad);
}

/// A list that declares a kind above 12 for its items is `InvalidType`.
pub proof fn unknown_item_kind(kind: u8, rest: Seq<u8>)
    requires
        kind > 12,
    ensures
        read_payload(9, seq![kind] + rest) == Err::<(TagView, Seq<u8>), _>(Failure::InvalidType),
{
}

/// A payload of a kind outside 1 to 12 is `InvalidType`.
pub proof fn unknown_payload_kind(kind: u8, bytes: Seq<u8>)
    requires
        kind == 0 || kind > 12,
    ensures
        read_payload(kind, bytes) == Err::<(TagView, Seq<u8>), _>(Failure::InvalidType),
{
}

/// A failure in the payload of an entry is the failure of the entries, after
/// any entries that read well: so a failure at any depth is the failure of
/// the document.
pub proof fn entry_failure_spreads(
    entries: Seq<(Seq<char>, TagView)>,
    nested: bool,
    kind: u8,
    name: Seq<char>,
    inner: Seq<u8>,
    failure: Failure,
)
    requires
        entries_sound(entries),
        1 <= kind <= 12,
        encode_utf8(name).len() <= MAX_TEXT,
        read_payload(kind, inner) == Err::<(TagView, Seq<u8>), _>(failure),
    ensures
        read_entries(
            entries_from(entries, 0) + seq![kind] + text_bytes(name) + inner,
            Seq::empty(),
            nested,
        ) == Err::<(Seq<(Seq<char>, TagView)>, Seq<u8>), _>(failure),
        !nested ==> read_document(entries_from(entries, 0) + seq![kind] + text_bytes(name) + inner)
            == Err::<TagView, _>(failure),
        nested ==> read_payload(10, entries_from(entries, 0) + seq![kind] + text_bytes(name) + inner)
            == Err::<(TagView, Seq<u8>), _>(failure),
{
    let bad = seq![kind] + (text_bytes(name) + inner);
    assert(entries_from(entries, 0) + seq![kind] + text_bytes(name) + inner =~= entries_from(
        entries,
        0,
    ) + bad);
    assert(entries.subrange(0, 0) =~= Seq::<(Seq<char>, TagView)>::empty());
    entries_read_through(entries, 0, nested, bad);
    assert(bad.skip(1) =~= text_bytes(name) + inner);
    text_read_back(name, inner);
}

/// A failure in the payload of an item is the failure of the list, after any
/// items that read well.
pub proof fn item_failure_spreads(
    items: Seq<TagView>,
    kind: u8,
    count: nat,
    inner: Seq<u8>,
    failure: Failure,
)
    requires
        items_sound(items, kind),
        1 <= kind <= 12,
        items.len() < count <= MAX_COUNT,
        read_payload(kind, inner) == Err::<(TagView, Seq<u8>), _>(failure),
    ensures
        read_payload(9, seq![kind] + count_bytes(count) + payloads_from(items, 0) + inner) == Err::<
            (TagView, Seq<u8>),
            _,
        >(failure),
{
    let after_count = payloads_from(items, 0) + inner;
    let bytes = seq![kind] + count_bytes(count) + payloads_from(items, 0) + inner;
    be_bytes_len(count, 4);
    assert(bytes.skip(1) =~= count_bytes(count) + after_count);
    count_read_back(count, after_count);
    assert(items.subrange(0, 0) =~= Seq::<TagView>::empty());
    items_read_through(items, 0, kind, (count - items.len()) as nat, inner);
}

/// A string that declares more bytes than there are is `IoError`.
pub proof fn short_text_fails(bytes: Seq<u8>)
    requires
        bytes.len() < 2 || bytes.len() < 2 + be_value(bytes.subrange(0, 2)),
    ensures
        read_text(bytes) == Err::<(Seq<char>, Seq<u8>), _>(Failure::IoError),
        read_payload(8, bytes) == Err::<(TagView, Seq<u8>), _>(Failure::IoError),
{
}

/// An array that declares more items than there are bytes for is `IoError`:
/// `kind` is 7, 11 or 12, and an item takes 1, 4 or 8 bytes.
pub proof fn short_array_fails(kind: u8, count: nat, rest: Seq<u8>)
    requires
        kind == 7 || kind == 11 || kind == 12,
        count <= MAX_COUNT,
        rest.len() < count * (if kind == 7 {
            1int
        } else if kind == 11 {
            4int
        } else {
            8int
        }),
    ensures
        read_payload(kind, count_bytes(count) + rest) == Err::<(TagView, Seq<u8>), _>(
            Failure::IoError,
        ),
{
    count_read_back(count, rest);
}

/// A string whose bytes are not UTF-8 is `InvalidUtf8`, with those bytes.
pub proof fn bad_text_fails(bytes: Seq<u8>)
    requires
        bytes.len() >= 2,
        bytes.len() >= 2 + be_value(bytes.subrange(0, 2)),
        !vstd::utf8::valid_utf8(bytes.subrange(2, 2 + be_value(bytes.subrange(0, 2)) as int)),
    ensures
        read_text(bytes) == Err::<(Seq<char>, Seq<u8>), _>(
            Failure::InvalidUtf8(bytes.subrange(2, 2 + be_value(bytes.subrange(0, 2)) as int)),
        ),
        read_payload(8, bytes) == Err::<(TagView, Seq<u8>), _>(
            Failure::InvalidUtf8(bytes.subrange(2, 2 + be_value(bytes.subrange(0, 2)) as int)),
        ),
{
}

/// Reading entries never gives back more bytes than it was given, and
/// inside a document it takes at least the byte that ends them.
pub proof fn read_entries_shortens(bytes: Seq<u8>, found: Seq<(Seq<char>, TagView)>, nested: bool)
    ensures
        read_entries(bytes, found, nested) matches Ok((_, rest)) ==> rest.len() <= bytes.len() && (
        nested ==> rest.len() < bytes.len()),
    decreases bytes.len(), 0nat,
{
    if bytes.len() > 0 && 1 <= bytes[0] <= 12 {
        if let Ok((name, after_name)) = read_text(bytes.skip(1)) {
            read_payload_shortens(bytes[0], after_name);
            if let Ok((value, rest)) = read_payload(bytes[0], after_name) {
                if rest.len() < bytes.len() {
                    read_entries_shortens(rest, with_entry(found, name, value), nested);
                }
            }
        }
    }
}

/// Reading a payload takes at least one byte: what follows a value is
/// shorter than what the value was read from.
pub proof fn read_payload_shortens(kind: u8, bytes: Seq<u8>)
    ensures
        read_payload(kind, bytes) matches Ok((_, rest)) ==> rest.len() < bytes.len(),
    decreases bytes.len(), 1nat,
{
    if kind == 9 {
        if bytes.len() >= 1 && bytes[0] <= 12 {
            if let Ok((count, rest)) = read_count(bytes.skip(1)) {
                if !(count > 0 && bytes[0] == 0) {
                    read_items_shortens(bytes[0], count, rest, Seq::empty());
                }
            }
        }
    } else if kind == 10 {
        read_entries_shortens(bytes, Seq::empty(), true);
    }
}

/// Reading items never gives back more bytes than it was given.
pub proof fn read_items_shortens(kind: u8, count: nat, bytes: Seq<u8>, found: Seq<TagView>)
    ensures
        read_items(kind, count, bytes, found) matches Ok((_, rest)) ==> rest.len() <= bytes.len(),
    decreases bytes.len(), 2nat, count,
{
    if count > 0 {
        read_payload_shortens(kind, bytes);
        if let Ok((value, rest)) = read_payload(kind, bytes) {
            if rest.len() < bytes.len() {
                read_items_shortens(kind, (count - 1) as nat, rest, found.push(value));
            }
        }
    }
}

/// Giving a name that fits a value that is sound keeps the entries sound.
pub proof fn with_entry_sound(entries: Seq<(Seq<char>, TagView)>, name: Seq<char>, value: TagView)
    requires
        entries_sound(entries),
        encode_utf8(name).len() <= MAX_TEXT,
        value.uniform() && value.fits() && value.well_formed(),
    ensures
        entries_sound(with_entry(entries, name, value)),
{
    with_entry_distinct(entries, name, value);
    let after = with_entry(entries, name, value);
    assert forall|i: int| 0 <= i < after.len() implies encode_utf8((#[trigger] after[i]).0).len()
        <= MAX_TEXT && after[i].1.uniform() && after[i].1.fits() && after[i].1.well_formed() by {
        if after[i] != (name, value) {
            assert(after[i] == entries[i]);
        }
    }
}

/// A string that is read is one that can be written.
pub proof fn text_read_sound(bytes: Seq<u8>)
    ensures
        read_text(bytes) matches Ok((text, _)) ==> encode_utf8(text).len() <= MAX_TEXT,
{
    if bytes.len() >= 2 {
        span_values();
        be_value_bound(bytes.subrange(0, 2));
        let count = be_value(bytes.subrange(0, 2));
        if bytes.len() >= 2 + count {
            let raw = bytes.subrange(2, 2 + count as int);
            if vstd::utf8::valid_utf8(raw) {
                vstd::utf8::decode_utf8_encode_utf8(raw);
            }
        }
    }
}

/// A count that is read is one that can be written.
pub proof fn count_read_sound(bytes: Seq<u8>)
    ensures
        read_count(bytes) matches Ok((count, _)) ==> count <= MAX_COUNT,
{
    if bytes.len() >= 4 {
        span_values();
        be_value_bound(bytes.subrange(0, 4));
    }
}

/// What is read as the payload of a kind is a value of that kind that can
/// be written: its lists are uniform, its lengths fit, and no compound in
/// it holds a name twice.
pub proof fn payload_read_sound(kind: u8, bytes: Seq<u8>)
    ensures
        read_payload(kind, bytes) matches Ok((value, _)) ==> value.kind() == kind
            && value.uniform() && value.fits() && value.well_formed(),
    decreases bytes.len(), 1nat,
{
    if kind == 7 || kind == 11 || kind == 12 {
        count_read_sound(bytes);
    } else if kind == 8 {
        text_read_sound(bytes);
    } else if kind == 9 {
        if bytes.len() >= 1 && bytes[0] <= 12 {
            count_read_sound(bytes.skip(1));
            if let Ok((count, rest)) = read_count(bytes.skip(1)) {
                if !(count > 0 && bytes[0] == 0) {
                    items_read_sound(bytes[0], count, rest, Seq::empty());
                    if let Ok((items, _)) = read_items(bytes[0], count, rest, Seq::empty()) {
                        let value = TagView::List(items);
                        assert(value->List_0 == items);
                    }
                }
            }
        }
    } else if kind == 10 {
        entries_read_sound(bytes, Seq::empty(), true);
        if let Ok((entries, _)) = read_entries(bytes, Seq::empty(), true) {
            let value = TagView::Compound(entries);
            assert(value->Compound_0 == entries);
        }
    }
}

/// The items that are read after sound ones are sound, and as many as were
/// asked for.
pub proof fn items_read_sound(kind: u8, count: nat, bytes: Seq<u8>, found: Seq<TagView>)
    requires
        items_sound(found, kind),
    ensures
        read_items(kind, count, bytes, found) matches Ok((items, _)) ==> items_sound(items, kind)
            && items.len() == found.len() + count,
    decreases bytes.len(), 2nat, count,
{
    if count > 0 {
        payload_read_sound(kind, bytes);
        if let Ok((value, rest)) = read_payload(kind, bytes) {
            if rest.len() < bytes.len() {
                let later = found.push(value);
                assert forall|i: int| 0 <= i < later.len() implies (#[trigger] later[i]).kind()
                    == kind && later[i].uniform() && later[i].fits() && later[i].well_formed() by {
                    if i < found.len() {
                        assert(later[i] == found[i]);
                    }
                }
                items_read_sound(kind, (count - 1) as nat, rest, later);
            }
        }
    }
}

/// The entries that are read into sound ones are sound.
pub proof fn entries_read_sound(bytes: Seq<u8>, found: Seq<(Seq<char>, TagView)>, nested: bool)
    requires
        entries_sound(found),
    ensures
        read_entries(bytes, found, nested) matches Ok((entries, _)) ==> entries_sound(entries),
    decreases bytes.len(), 0nat,
{
    if bytes.len() > 0 && 1 <= bytes[0] <= 12 {
        text_read_sound(bytes.skip(1));
        if let Ok((name, after_name)) = read_text(bytes.skip(1)) {
            payload_read_sound(bytes[0], after_name);
            if let Ok((value, rest)) = read_payload(bytes[0], after_name) {
                if rest.len() < bytes.len() {
                    with_entry_sound(found, name, value);
                    entries_read_sound(rest, with_entry(found, name, value), nested);
                }
            }
        }
    }
}

/// What is read can be written: a document reads as a tree with a compound
/// at its root, uniform lists, lengths that fit, and no name twice in a
/// compound. So it is written to bytes that read as the same tree.
pub proof fn read_gives_writable(bytes: Seq<u8>)
    ensures
        read_document(bytes) matches Ok(root) ==> root.writable() && root.well_formed()
            && read_document(document(root)) == Ok::<_, Failure>(root),
{
    entries_read_sound(bytes, Seq::empty(), false);
    if let Ok(root) = read_document(bytes) {
        assert(root->Compound_0 == read_entries(bytes, Seq::empty(), false)->Ok_0.0);
        read_inverts_write(root);
    }
}

} // verus!
