//! A tag tree as a structured value that says of each node what kind it is:
//! a record of two fields, `type` and `value`. A host with one numeric type
//! then loses nothing of the tree.

use crate::model::{
    distinct_keys, key_index, key_index_first, key_index_found, with_entry, with_entry_distinct,
    TagView,
};
use crate::tag::{list_view_each, same_text, Compound, Tag};
use vstd::prelude::*;

verus! {

/// A structured value as a host holds it.
#[derive(Debug, PartialEq)]
pub enum BridgeValue {
    /// No value.
    Null,
    /// A truth value.
    Bool(bool),
    /// A whole number.
    Integer(i64),
    /// A binary32 real, by its bits.
    Float(u32),
    /// A binary64 real, by its bits.
    Double(u64),
    /// A string.
    Text(String),
    /// Values in order.
    Sequence(Vec<BridgeValue>),
    /// Named values in order.
    Record(Vec<(String, BridgeValue)>),
}

/// What a structured value is.
pub enum BridgeView {
    Null,
    Bool(bool),
    Integer(i64),
    Float(u32),
    Double(u64),
    Text(Seq<char>),
    Sequence(Seq<BridgeView>),
    Record(Seq<(Seq<char>, BridgeView)>),
}

impl View for BridgeValue {
    type V = BridgeView;

    open spec fn view(&self) -> BridgeView {
        bridge_view(*self)
    }
}

/// What a structured value is.
pub open spec fn bridge_view(value: BridgeValue) -> BridgeView
    decreases value,
{
    match value {
        BridgeValue::Null => BridgeView::Null,
        BridgeValue::Bool(b) => BridgeView::Bool(b),
        BridgeValue::Integer(n) => BridgeView::Integer(n),
        BridgeValue::Float(bits) => BridgeView::Float(bits),
        BridgeValue::Double(bits) => BridgeView::Double(bits),
        BridgeValue::Text(text) => BridgeView::Text(text@),
        BridgeValue::Sequence(values) => BridgeView::Sequence(sequence_view(values, values@.len())),
        BridgeValue::Record(fields) => BridgeView::Record(record_view(fields, fields@.len())),
    }
}

/// What the first `n` of `values` are.
pub open spec fn sequence_view(values: Vec<BridgeValue>, n: nat) -> Seq<BridgeView>
    decreases values, n,
{
    if n == 0 || n > values@.len() {
        Seq::empty()
    } else {
        sequence_view(values, (n - 1) as nat).push(bridge_view(values@[n - 1]))
    }
}

/// What the first `n` of `fields` are, each with its name.
pub open spec fn record_view(fields: Vec<(String, BridgeValue)>, n: nat) -> Seq<
    (Seq<char>, BridgeView),
>
    decreases fields, n,
{
    if n == 0 || n > fields@.len() {
        Seq::empty()
    } else {
        record_view(fields, (n - 1) as nat).push((fields@[n - 1].0@, bridge_view(fields@[n - 1].1)))
    }
}

/// `sequence_view` takes what each value is, place by place.
pub proof fn sequence_view_each(values: Vec<BridgeValue>, n: nat)
    requires
        n <= values@.len(),
    ensures
        sequence_view(values, n).len() == n,
        forall|i: int| 0 <= i < n ==> #[trigger] sequence_view(values, n)[i] == values@[i]@,
    decreases n,
{
    if n > 0 {
        sequence_view_each(values, (n - 1) as nat);
    }
}

/// `record_view` takes name and value of each field, place by place.
pub proof fn record_view_each(fields: Vec<(String, BridgeValue)>, n: nat)
    requires
        n <= fields@.len(),
    ensures
        record_view(fields, n).len() == n,
        forall|i: int|
            0 <= i < n ==> #[trigger] record_view(fields, n)[i] == (fields@[i].0@, fields@[i].1@),
    decreases n,
{
    if n > 0 {
        record_view_each(fields, (n - 1) as nat);
    }
}

/// What a sequence is: what its values are, place by place.
pub proof fn sequence_each(values: Vec<BridgeValue>)
    ensures
        BridgeValue::Sequence(values)@ is Sequence,
        BridgeValue::Sequence(values)@->Sequence_0.len() == values@.len(),
        forall|i: int|
            0 <= i < values@.len() ==> #[trigger] BridgeValue::Sequence(values)@->Sequence_0[i]
                == values@[i]@,
{
    sequence_view_each(values, values@.len());
}

/// What a record is: name and value of each field, place by place.
pub proof fn record_each(fields: Vec<(String, BridgeValue)>)
    ensures
        BridgeValue::Record(fields)@ is Record,
        BridgeValue::Record(fields)@->Record_0.len() == fields@.len(),
        forall|i: int|
            0 <= i < fields@.len() ==> #[trigger] BridgeValue::Record(fields)@->Record_0[i] == (
                fields@[i].0@,
                fields@[i].1@,
            ),
{
    record_view_each(fields, fields@.len());
}

/// The name under which a kind goes in the field `type`.
pub open spec fn kind_name(value: TagView) -> Seq<char> {
    match value {
        TagView::Byte(_) => "byte"@,
        TagView::Short(_) => "short"@,
        TagView::Int(_) => "int"@,
        TagView::Long(_) => "long"@,
        TagView::Float(_) => "float"@,
        TagView::Double(_) => "double"@,
        TagView::ByteArray(_) => "byte_array"@,
        TagView::Text(_) => "string"@,
        TagView::List(_) => "list"@,
        TagView::Compound(_) => "compound"@,
        TagView::IntArray(_) => "int_array"@,
        TagView::LongArray(_) => "long_array"@,
    }
}

/// The record of a node: the field `type` with the name of the kind, then
/// the field `value` with the payload.
pub open spec fn tagged(name: Seq<char>, payload: BridgeView) -> BridgeView {
    BridgeView::Record(seq![("type"@, BridgeView::Text(name)), ("value"@, payload)])
}

/// The structured value of a tag tree. The payload of a scalar or a string
/// is the value itself, that of an array the sequence of its numbers, that
/// of a list the sequence of the records of its items, that of a compound
/// the record of its entries, each under its name.
pub open spec fn encoded(value: TagView) -> BridgeView
    decreases value, 1nat,
{
    tagged(kind_name(value), encoded_payload(value))
}

/// The payload of a node in its record.
pub open spec fn encoded_payload(value: TagView) -> BridgeView
    decreases value, 0nat,
{
    match value {
        TagView::Byte(n) => BridgeView::Integer(n as i64),
        TagView::Short(n) => BridgeView::Integer(n as i64),
        TagView::Int(n) => BridgeView::Integer(n as i64),
        TagView::Long(n) => BridgeView::Integer(n),
        TagView::Float(bits) => BridgeView::Float(bits),
        TagView::Double(bits) => BridgeView::Double(bits),
        TagView::ByteArray(items) => BridgeView::Sequence(
            items.map_values(|n: i8| BridgeView::Integer(n as i64)),
        ),
        TagView::Text(text) => BridgeView::Text(text),
        TagView::List(items) => BridgeView::Sequence(encoded_items(items, items.len())),
        TagView::Compound(entries) => BridgeView::Record(encoded_entries(entries, entries.len())),
        TagView::IntArray(items) => BridgeView::Sequence(
            items.map_values(|n: i32| BridgeView::Integer(n as i64)),
        ),
        TagView::LongArray(items) => BridgeView::Sequence(
            items.map_values(|n: i64| BridgeView::Integer(n)),
        ),
    }
}

/// The records of the first `n` items of a list.
pub open spec fn encoded_items(items: Seq<TagView>, n: nat) -> Seq<BridgeView>
    decreases items, n,
{
    if n == 0 || n > items.len() {
        Seq::empty()
    } else {
        encoded_items(items, (n - 1) as nat).push(encoded(items[n - 1]))
    }
}

/// The first `n` entries of a compound, each the record of its value under
/// its name.
pub open spec fn encoded_entries(entries: Seq<(Seq<char>, TagView)>, n: nat) -> Seq<
    (Seq<char>, BridgeView),
>
    decreases entries, n,
{
    if n == 0 || n > entries.len() {
        Seq::empty()
    } else {
        encoded_entries(entries, (n - 1) as nat).push((entries[n - 1].0, encoded(entries[n - 1].1)))
    }
}

/// `encoded_items` takes the record of each item, place by place.
pub proof fn encoded_items_each(items: Seq<TagView>, n: nat)
    requires
        n <= items.len(),
    ensures
        encoded_items(items, n).len() == n,
        forall|i: int| 0 <= i < n ==> #[trigger] encoded_items(items, n)[i] == encoded(items[i]),
    decreases n,
{
    if n > 0 {
        encoded_items_each(items, (n - 1) as nat);
    }
}

/// `encoded_entries` takes name and record of each entry, place by place.
pub proof fn encoded_entries_each(entries: Seq<(Seq<char>, TagView)>, n: nat)
    requires
        n <= entries.len(),
    ensures
        encoded_entries(entries, n).len() == n,
        forall|i: int|
            0 <= i < n ==> #[trigger] encoded_entries(entries, n)[i] == (
                entries[i].0,
                encoded(entries[i].1),
            ),
    decreases n,
{
    if n > 0 {
        encoded_entries_each(entries, (n - 1) as nat);
    }
}

/// The record of a node: the field `type` with `tag_type`, then the field
/// `value` with `value`.
pub fn serialize_simple(tag_type: &str, value: BridgeValue) -> (record: BridgeValue)
    ensures
        record@ == tagged(tag_type@, value@),
{
    let mut fields: Vec<(String, BridgeValue)> = Vec::new();
    fields.push(("type".to_owned(), BridgeValue::Text(tag_type.to_owned())));
    fields.push(("value".to_owned(), value));
    proof {
        record_each(fields);
        assert(BridgeValue::Record(fields)@->Record_0 =~= seq![
            ("type"@, BridgeView::Text(tag_type@)),
            ("value"@, value@),
        ]);
    }
    BridgeValue::Record(fields)
}

/// The sequence of the numbers of a byte array.
#[verifier::loop_isolation(false)]
fn numbers_i8(items: &Vec<i8>) -> (value: BridgeValue)
    ensures
        value@ == BridgeView::Sequence(items@.map_values(|n: i8| BridgeView::Integer(n as i64))),
{
    let mut values: Vec<BridgeValue> = Vec::new();
    let mut i: usize = 0;
    while i < items.len()
        invariant
            i <= items.len(),
            values@.len() == i,
            forall|j: int| 0 <= j < i ==> (#[trigger] values@[j])@ == BridgeView::Integer(items@[j] as i64),
        decreases items.len() - i,
    {
        values.push(BridgeValue::Integer(items[i] as i64));
        i += 1;
    }
    proof {
        sequence_each(values);
        assert(BridgeValue::Sequence(values)@->Sequence_0 =~= items@.map_values(
            |n: i8| BridgeView::Integer(n as i64),
        ));
    }
    BridgeValue::Sequence(values)
}

/// The sequence of the numbers of an int array.
#[verifier::loop_isolation(false)]
fn numbers_i32(items: &Vec<i32>) -> (value: BridgeValue)
    ensures
        value@ == BridgeView::Sequence(items@.map_values(|n: i32| BridgeView::Integer(n as i64))),
{
    let mut values: Vec<BridgeValue> = Vec::new();
    let mut i: usize = 0;
    while i < items.len()
        invariant
            i <= items.len(),
            values@.len() == i,
            forall|j: int| 0 <= j < i ==> (#[trigger] values@[j])@ == BridgeView::Integer(items@[j] as i64),
        decreases items.len() - i,
    {
        values.push(BridgeValue::Integer(items[i] as i64));
        i += 1;
    }
    proof {
        sequence_each(values);
        assert(BridgeValue::Sequence(values)@->Sequence_0 =~= items@.map_values(
            |n: i32| BridgeView::Integer(n as i64),
        ));
    }
    BridgeValue::Sequence(values)
}

/// The sequence of the numbers of a long array.
#[verifier::loop_isolation(false)]
fn numbers_i64(items: &Vec<i64>) -> (value: BridgeValue)
    ensures
        value@ == BridgeView::Sequence(items@.map_values(|n: i64| BridgeView::Integer(n))),
{
    let mut values: Vec<BridgeValue> = Vec::new();
    let mut i: usize = 0;
    while i < items.len()
        invariant
            i <= items.len(),
            values@.len() == i,
            forall|j: int| 0 <= j < i ==> (#[trigger] values@[j])@ == BridgeView::Integer(items@[j]),
        decreases items.len() - i,
    {
        values.push(BridgeValue::Integer(items[i]));
        i += 1;
    }
    proof {
        sequence_each(values);
        assert(BridgeValue::Sequence(values)@->Sequence_0 =~= items@.map_values(
            |n: i64| BridgeView::Integer(n),
        ));
    }
    BridgeValue::Sequence(values)
}

/// The structured value of a tag tree: of each node the record of its kind
/// and its payload. No compound of the tree holds a name twice, so the
/// value decodes back to the tree.
#[verifier::loop_isolation(false)]
pub fn bridge_encode(tag: &Tag) -> (value: BridgeValue)
    ensures
        value@ == encoded(tag@),
        tag@.well_formed(),
        decoded(value@) == Ok::<_, BridgeFailure>(tag@),
    decreases tag,
{
    let value = encode_node(tag);
    proof {
        decode_inverts_encode(tag@);
    }
    value
}

/// The record of a node and of all below it.
#[verifier::loop_isolation(false)]
fn encode_node(tag: &Tag) -> (value: BridgeValue)
    ensures
        value@ == encoded(tag@),
        tag@.well_formed(),
    decreases tag,
{
    match tag {
        Tag::ByteTag(value) => serialize_simple("byte", BridgeValue::Integer(*value as i64)),
        Tag::ShortTag(value) => serialize_simple("short", BridgeValue::Integer(*value as i64)),
        Tag::IntTag(value) => serialize_simple("int", BridgeValue::Integer(*value as i64)),
        Tag::LongTag(value) => serialize_simple("long", BridgeValue::Integer(*value)),
        Tag::FloatTag(value) => serialize_simple("float", BridgeValue::Float(*value)),
        Tag::DoubleTag(value) => serialize_simple("double", BridgeValue::Double(*value)),
        Tag::ByteArray(value) => serialize_simple("byte_array", numbers_i8(value)),
        Tag::StringTag(value) => serialize_simple("string", BridgeValue::Text(value.clone())),
        Tag::ListTag(value) => {
            proof {
                list_view_each(*value);
            }
            let ghost items = tag@->List_0;
            let mut values: Vec<BridgeValue> = Vec::new();
            let mut i: usize = 0;
            while i < value.len()
                invariant
                    i <= value.len(),
                    values@.len() == i,
                    forall|j: int| 0 <= j < i ==> (#[trigger] values@[j])@ == encoded(items[j]),
                    forall|j: int| 0 <= j < i ==> (#[trigger] items[j]).well_formed(),
                decreases value.len() - i,
            {
                proof {
                    vstd::std_specs::vec::axiom_vec_index_decreases(*value, i as int);
                }
                values.push(encode_node(&value[i]));
                i += 1;
            }
            proof {
                sequence_each(values);
                encoded_items_each(items, items.len());
                assert(BridgeValue::Sequence(values)@->Sequence_0 =~= encoded_items(
                    items,
                    items.len(),
                ));
            }
            serialize_simple("list", BridgeValue::Sequence(values))
        },
        Tag::CompoundTag(value) => {
            proof {
                value.view_of_tag();
            }
            let ghost entries = tag@->Compound_0;
            value.keys_are_distinct();
            let mut fields: Vec<(String, BridgeValue)> = Vec::new();
            let mut i: usize = 0;
            while i < value.len()
                invariant
                    i <= value@.len(),
                    fields@.len() == i,
                    forall|j: int|
                        0 <= j < i ==> (#[trigger] fields@[j]).0@ == entries[j].0 && fields@[j].1@
                            == encoded(entries[j].1),
                    forall|j: int| 0 <= j < i ==> (#[trigger] entries[j]).1.well_formed(),
                decreases value@.len() - i,
            {
                let name = value.key_at(i).clone();
                let field = encode_node(value.value_at(i));
                fields.push((name, field));
                i += 1;
            }
            proof {
                record_each(fields);
                encoded_entries_each(entries, entries.len());
                assert(BridgeValue::Record(fields)@->Record_0 =~= encoded_entries(
                    entries,
                    entries.len(),
                ));
            }
            serialize_simple("compound", BridgeValue::Record(fields))
        },
        Tag::IntArray(value) => serialize_simple("int_array", numbers_i32(value)),
        Tag::LongArray(value) => serialize_simple("long_array", numbers_i64(value)),
    }
}

/// Why a structured value is no tag tree.
#[derive(Debug, PartialEq, Eq)]
pub enum BridgeError {
    /// A record lacks the field of this name.
    MissingField(String),
    /// A record has a field of this name, which is neither `type` nor `value`.
    UnknownField(String),
    /// The field `type` holds this name, which is the name of no kind.
    UnknownVariant(String),
    /// A value is not of the shape that its place asks for, a number is out
    /// of the range of its kind, or a record gives a field twice.
    InvalidValue,
}

/// Why a structured value is no tag tree.
pub enum BridgeFailure {
    MissingField(Seq<char>),
    UnknownField(Seq<char>),
    UnknownVariant(Seq<char>),
    InvalidValue,
}

impl View for BridgeError {
    type V = BridgeFailure;

    open spec fn view(&self) -> BridgeFailure {
        match self {
            BridgeError::MissingField(name) => BridgeFailure::MissingField(name@),
            BridgeError::UnknownField(name) => BridgeFailure::UnknownField(name@),
            BridgeError::UnknownVariant(name) => BridgeFailure::UnknownVariant(name@),
            BridgeError::InvalidValue => BridgeFailure::InvalidValue,
        }
    }
}

/// Whether a name is that of one of the two fields of a node's record.
pub open spec fn known_field(name: Seq<char>) -> bool {
    name == "type"@ || name == "value"@
}

/// The place of the first field whose name is not known; the length where
/// every name is known.
pub open spec fn first_unknown<V>(fields: Seq<(Seq<char>, V)>) -> int
    decreases fields.len(),
{
    if fields.len() == 0 {
        0
    } else if !known_field(fields[0].0) {
        0
    } else {
        1 + first_unknown(fields.drop_first())
    }
}

/// `first_unknown` is the first place at which a name is not known.
pub proof fn first_unknown_first<V>(fields: Seq<(Seq<char>, V)>, at: int)
    requires
        0 <= at <= fields.len(),
        forall|j: int| 0 <= j < at ==> known_field((#[trigger] fields[j]).0),
        at < fields.len() ==> !known_field(fields[at].0),
    ensures
        first_unknown(fields) == at,
    decreases fields.len(),
{
    if fields.len() == 0 {
    } else if at == 0 {
    } else {
        let rest = fields.drop_first();
        assert forall|j: int| 0 <= j < at - 1 implies known_field((#[trigger] rest[j]).0) by {
            assert(rest[j] == fields[j + 1]);
        }
        first_unknown_first(rest, at - 1);
        assert(known_field(fields[0].0));
    }
}

/// The number that a value is, if it is a whole number from `lo` to `hi`.
pub open spec fn integer_in(value: BridgeView, lo: int, hi: int) -> Option<i64> {
    match value {
        BridgeView::Integer(n) => if lo <= n <= hi {
            Some(n)
        } else {
            None
        },
        _ => None,
    }
}

/// The numbers that the values are, if each is a whole number from `lo` to
/// `hi`.
pub open spec fn integers_in(values: Seq<BridgeView>, lo: int, hi: int) -> Option<Seq<i64>> {
    if forall|i: int| 0 <= i < values.len() ==> integer_in(#[trigger] values[i], lo, hi) is Some {
        Some(Seq::new(values.len(), |i: int| values[i]->Integer_0))
    } else {
        None
    }
}

/// The tag tree of a structured value: the inverse of `encoded`. The value
/// is a record of the two fields `type` and `value`, in either order, and of
/// no other.
pub open spec fn decoded(value: BridgeView) -> Result<TagView, BridgeFailure>
    decreases value, 0nat,
{
    match value {
        BridgeView::Record(fields) => decoded_record(fields),
        _ => Err(BridgeFailure::InvalidValue),
    }
}

/// The tag tree of the record of a node. The first field of another name
/// than `type` and `value` is an unknown field; without one, a record
/// without `type`, then one without `value`, misses that field; a record
/// that gives a field twice is invalid, and so is a `type` that is no
/// string.
pub open spec fn decoded_record(fields: Seq<(Seq<char>, BridgeView)>) -> Result<
    TagView,
    BridgeFailure,
>
    decreases fields, 0nat,
{
    if first_unknown(fields) < fields.len() {
        Err(BridgeFailure::UnknownField(fields[first_unknown(fields)].0))
    } else if key_index(fields, "type"@) >= fields.len() {
        Err(BridgeFailure::MissingField("type"@))
    } else if key_index(fields, "value"@) >= fields.len() {
        Err(BridgeFailure::MissingField("value"@))
    } else if fields.len() != 2 {
        Err(BridgeFailure::InvalidValue)
    } else {
        let kind = if fields[0].0 == "type"@ {
            fields[0].1
        } else {
            fields[1].1
        };
        let payload = if fields[0].0 == "type"@ {
            fields[1].1
        } else {
            fields[0].1
        };
        match kind {
            BridgeView::Text(name) => decoded_payload(name, payload),
            _ => Err(BridgeFailure::InvalidValue),
        }
    }
}

/// The tag of the kind named `name` with the payload `payload`. A name
/// that is the name of no kind is an unknown variant; a payload of another
/// shape than the kind asks for, or a number outside its range, is invalid.
pub open spec fn decoded_payload(name: Seq<char>, payload: BridgeView) -> Result<
    TagView,
    BridgeFailure,
>
    decreases payload, 0nat,
{
    if name == "byte"@ {
        match integer_in(payload, i8::MIN as int, i8::MAX as int) {
            Some(n) => Ok(TagView::Byte(n as i8)),
            None => Err(BridgeFailure::InvalidValue),
        }
    } else if name == "short"@ {
        match integer_in(payload, i16::MIN as int, i16::MAX as int) {
            Some(n) => Ok(TagView::Short(n as i16)),
            None => Err(BridgeFailure::InvalidValue),
        }
    } else if name == "int"@ {
        match integer_in(payload, i32::MIN as int, i32::MAX as int) {
            Some(n) => Ok(TagView::Int(n as i32)),
            None => Err(BridgeFailure::InvalidValue),
        }
    } else if name == "long"@ {
        match integer_in(payload, i64::MIN as int, i64::MAX as int) {
            Some(n) => Ok(TagView::Long(n)),
            None => Err(BridgeFailure::InvalidValue),
        }
    } else if name == "float"@ {
        match payload {
            BridgeView::Float(bits) => Ok(TagView::Float(bits)),
            _ => Err(BridgeFailure::InvalidValue),
        }
    } else if name == "double"@ {
        match payload {
            BridgeView::Double(bits) => Ok(TagView::Double(bits)),
            _ => Err(BridgeFailure::InvalidValue),
        }
    } else if name == "byte_array"@ {
        match payload {
            BridgeView::Sequence(values) => match integers_in(
                values,
                i8::MIN as int,
                i8::MAX as int,
            ) {
                Some(numbers) => Ok(TagView::ByteArray(numbers.map_values(|n: i64| n as i8))),
                None => Err(BridgeFailure::InvalidValue),
            },
            _ => Err(BridgeFailure::InvalidValue),
        }
    } else if name == "string"@ {
        match payload {
            BridgeView::Text(text) => Ok(TagView::Text(text)),
            _ => Err(BridgeFailure::InvalidValue),
        }
    } else if name == "list"@ {
        match payload {
            BridgeView::Sequence(values) => match decoded_items(values, 0, Seq::empty()) {
                Ok(items) => Ok(TagView::List(items)),
                Err(e) => Err(e),
            },
            _ => Err(BridgeFailure::InvalidValue),
        }
    } else if name == "compound"@ {
        match payload {
            BridgeView::Record(fields) => match decoded_entries(fields, 0, Seq::empty()) {
                Ok(entries) => Ok(TagView::Compound(entries)),
                Err(e) => Err(e),
            },
            _ => Err(BridgeFailure::InvalidValue),
        }
    } else if name == "int_array"@ {
        match payload {
            BridgeView::Sequence(values) => match integers_in(
                values,
                i32::MIN as int,
                i32::MAX as int,
            ) {
                Some(numbers) => Ok(TagView::IntArray(numbers.map_values(|n: i64| n as i32))),
                None => Err(BridgeFailure::InvalidValue),
            },
            _ => Err(BridgeFailure::InvalidValue),
        }
    } else if name == "long_array"@ {
        match payload {
            BridgeView::Sequence(values) => match integers_in(
                values,
                i64::MIN as int,
                i64::MAX as int,
            ) {
                Some(numbers) => Ok(TagView::LongArray(numbers)),
                None => Err(BridgeFailure::InvalidValue),
            },
            _ => Err(BridgeFailure::InvalidValue),
        }
    } else {
        Err(BridgeFailure::UnknownVariant(name))
    }
}

/// The tags of the values from place `from` on, put one by one at the end
/// of `found`; the first failure ends it.
pub open spec fn decoded_items(values: Seq<BridgeView>, from: nat, found: Seq<TagView>) -> Result<
    Seq<TagView>,
    BridgeFailure,
>
    decreases values, values.len() - from,
{
    if from >= values.len() {
        Ok(found)
    } else {
        match decoded(values[from as int]) {
            Err(e) => Err(e),
            Ok(item) => decoded_items(values, from + 1, found.push(item)),
        }
    }
}

/// The entries of the fields from place `from` on, put one by one into
/// `found`; the first failure ends it. A name that comes again keeps its
/// place and takes the later value.
pub open spec fn decoded_entries(
    fields: Seq<(Seq<char>, BridgeView)>,
    from: nat,
    found: Seq<(Seq<char>, TagView)>,
) -> Result<Seq<(Seq<char>, TagView)>, BridgeFailure>
    decreases fields, fields.len() - from,
{
    if from >= fields.len() {
        Ok(found)
    } else {
        match decoded(fields[from as int].1) {
            Err(e) => Err(e),
            Ok(value) => decoded_entries(
                fields,
                from + 1,
                with_entry(found, fields[from as int].0, value),
            ),
        }
    }
}

/// What the fields of a record are, each with its name.
pub open spec fn fields_view(fields: Vec<(String, BridgeValue)>) -> Seq<(Seq<char>, BridgeView)> {
    record_view(fields, fields@.len())
}

/// What the values of a sequence are.
pub open spec fn values_view(values: Vec<BridgeValue>) -> Seq<BridgeView> {
    sequence_view(values, values@.len())
}

/// What a decoding gave, by what the tree or the error is.
pub open spec fn outcome(r: Result<Tag, BridgeError>) -> Result<TagView, BridgeFailure> {
    match r {
        Ok(tag) => Ok(tag@),
        Err(e) => Err(e@),
    }
}

/// The place of the first field named `key`.
#[verifier::loop_isolation(false)]
fn find_field(fields: &Vec<(String, BridgeValue)>, key: &str) -> (at: Option<usize>)
    ensures
        at is Some <==> key_index(fields_view(*fields), key@) < fields@.len(),
        at matches Some(i) ==> i == key_index(fields_view(*fields), key@),
{
    let ghost view = fields_view(*fields);
    proof {
        record_view_each(*fields, fields@.len());
    }
    let mut i: usize = 0;
    while i < fields.len()
        invariant
            i <= fields.len(),
            forall|j: int| 0 <= j < i ==> (#[trigger] view[j]).0 != key@,
        decreases fields.len() - i,
    {
        if same_text(fields[i].0.as_str(), key) {
            proof {
                key_index_first(view, key@, i as int);
            }
            return Some(i);
        }
        i += 1;
    }
    proof {
        key_index_first(view, key@, i as int);
    }
    None
}

/// The whole number that a value is, if it is one from `lo` to `hi`.
fn integer_of(value: &BridgeValue, lo: i64, hi: i64) -> (n: Option<i64>)
    ensures
        n == integer_in(value@, lo as int, hi as int),
{
    match value {
        BridgeValue::Integer(n) => if lo <= *n && *n <= hi {
            Some(*n)
        } else {
            None
        },
        _ => None,
    }
}

/// The tag tree that the record of a node stands for.
#[verifier::loop_isolation(false)]
pub fn visit_map(fields: &Vec<(String, BridgeValue)>) -> (r: Result<Tag, BridgeError>)
    ensures
        outcome(r) == decoded_record(fields_view(*fields)),
    decreases fields, 0nat,
{
    let ghost view = fields_view(*fields);
    proof {
        record_view_each(*fields, fields@.len());
        reveal_strlit("type");
        reveal_strlit("value");
        assert("type"@.len() != "value"@.len());
    }
    let mut i: usize = 0;
    while i < fields.len()
        invariant
            i <= fields.len(),
            forall|j: int| 0 <= j < i ==> known_field((#[trigger] view[j]).0),
        decreases fields.len() - i,
    {
        let key = fields[i].0.as_str();
        if !same_text(key, "type") && !same_text(key, "value") {
            proof {
                first_unknown_first(view, i as int);
            }
            return Err(BridgeError::UnknownField(fields[i].0.clone()));
        }
        i += 1;
    }
    proof {
        first_unknown_first(view, i as int);
        key_index_found(view, "type"@);
        key_index_found(view, "value"@);
    }
    let kind_at = match find_field(fields, "type") {
        Some(at) => at,
        None => return Err(BridgeError::MissingField("type".to_owned())),
    };
    let payload_at = match find_field(fields, "value") {
        Some(at) => at,
        None => return Err(BridgeError::MissingField("value".to_owned())),
    };
    if fields.len() != 2 {
        return Err(BridgeError::InvalidValue);
    }
    proof {
        vstd::std_specs::vec::axiom_vec_index_decreases(*fields, payload_at as int);
    }
    match &fields[kind_at].1 {
        BridgeValue::Text(name) => decode_payload(name.as_str(), &fields[payload_at].1),
        _ => Err(BridgeError::InvalidValue),
    }
}

/// The numbers of a byte array.
#[verifier::loop_isolation(false)]
fn bytes_of(values: &Vec<BridgeValue>) -> (numbers: Option<Vec<i8>>)
    ensures
        match integers_in(values_view(*values), i8::MIN as int, i8::MAX as int) {
            Some(found) => numbers is Some && numbers->Some_0@ == found.map_values(|n: i64| n as i8),
            None => numbers is None,
        },
{
    let ghost view = values_view(*values);
    proof {
        sequence_view_each(*values, values@.len());
    }
    let mut numbers: Vec<i8> = Vec::new();
    let mut i: usize = 0;
    while i < values.len()
        invariant
            i <= values.len(),
            numbers@.len() == i,
            forall|j: int|
                0 <= j < i ==> integer_in(#[trigger] view[j], i8::MIN as int, i8::MAX as int)
                    == Some(numbers@[j] as i64),
        decreases values.len() - i,
    {
        match integer_of(&values[i], i8::MIN as i64, i8::MAX as i64) {
            Some(n) => numbers.push(n as i8),
            None => {
                assert(integer_in(view[i as int], i8::MIN as int, i8::MAX as int) is None);
                return None;
            },
        }
        i += 1;
    }
    assert(numbers@ =~= Seq::new(view.len(), |i: int| view[i]->Integer_0).map_values(
        |n: i64| n as i8,
    ));
    Some(numbers)
}

/// The numbers of an int array.
#[verifier::loop_isolation(false)]
fn ints_of(values: &Vec<BridgeValue>) -> (numbers: Option<Vec<i32>>)
    ensures
        match integers_in(values_view(*values), i32::MIN as int, i32::MAX as int) {
            Some(found) => numbers is Some && numbers->Some_0@ == found.map_values(
                |n: i64| n as i32,
            ),
            None => numbers is None,
        },
{
    let ghost view = values_view(*values);
    proof {
        sequence_view_each(*values, values@.len());
    }
    let mut numbers: Vec<i32> = Vec::new();
    let mut i: usize = 0;
    while i < values.len()
        invariant
            i <= values.len(),
            numbers@.len() == i,
            forall|j: int|
                0 <= j < i ==> integer_in(#[trigger] view[j], i32::MIN as int, i32::MAX as int)
                    == Some(numbers@[j] as i64),
        decreases values.len() - i,
    {
        match integer_of(&values[i], i32::MIN as i64, i32::MAX as i64) {
            Some(n) => numbers.push(n as i32),
            None => {
                assert(integer_in(view[i as int], i32::MIN as int, i32::MAX as int) is None);
                return None;
            },
        }
        i += 1;
    }
    assert(numbers@ =~= Seq::new(view.len(), |i: int| view[i]->Integer_0).map_values(
        |n: i64| n as i32,
    ));
    Some(numbers)
}

/// The numbers of a long array.
#[verifier::loop_isolation(false)]
fn longs_of(values: &Vec<BridgeValue>) -> (numbers: Option<Vec<i64>>)
    ensures
        match integers_in(values_view(*values), i64::MIN as int, i64::MAX as int) {
            Some(found) => numbers is Some && numbers->Some_0@ == found,
            None => numbers is None,
        },
{
    let ghost view = values_view(*values);
    proof {
        sequence_view_each(*values, values@.len());
    }
    let mut numbers: Vec<i64> = Vec::new();
    let mut i: usize = 0;
    while i < values.len()
        invariant
            i <= values.len(),
            numbers@.len() == i,
            forall|j: int|
                0 <= j < i ==> integer_in(#[trigger] view[j], i64::MIN as int, i64::MAX as int)
                    == Some(numbers@[j]),
        decreases values.len() - i,
    {
        match integer_of(&values[i], i64::MIN, i64::MAX) {
            Some(n) => numbers.push(n),
            None => {
                assert(integer_in(view[i as int], i64::MIN as int, i64::MAX as int) is None);
                return None;
            },
        }
        i += 1;
    }
    assert(numbers@ =~= Seq::new(view.len(), |i: int| view[i]->Integer_0));
    Some(numbers)
}

/// The tag of the kind named `name` with the payload `payload`.
#[verifier::loop_isolation(false)]
fn decode_payload(name: &str, payload: &BridgeValue) -> (r: Result<Tag, BridgeError>)
    ensures
        outcome(r) == decoded_payload(name@, payload@),
    decreases payload, 0nat,
{
    if same_text(name, "byte") {
        match integer_of(payload, i8::MIN as i64, i8::MAX as i64) {
            Some(n) => Ok(Tag::ByteTag(n as i8)),
            None => Err(BridgeError::InvalidValue),
        }
    } else if same_text(name, "short") {
        match integer_of(payload, i16::MIN as i64, i16::MAX as i64) {
            Some(n) => Ok(Tag::ShortTag(n as i16)),
            None => Err(BridgeError::InvalidValue),
        }
    } else if same_text(name, "int") {
        match integer_of(payload, i32::MIN as i64, i32::MAX as i64) {
            Some(n) => Ok(Tag::IntTag(n as i32)),
            None => Err(BridgeError::InvalidValue),
        }
    } else if same_text(name, "long") {
        match integer_of(payload, i64::MIN, i64::MAX) {
            Some(n) => Ok(Tag::LongTag(n)),
            None => Err(BridgeError::InvalidValue),
        }
    } else if same_text(name, "float") {
        match payload {
            BridgeValue::Float(bits) => Ok(Tag::FloatTag(*bits)),
            _ => Err(BridgeError::InvalidValue),
        }
    } else if same_text(name, "double") {
        match payload {
            BridgeValue::Double(bits) => Ok(Tag::DoubleTag(*bits)),
            _ => Err(BridgeError::InvalidValue),
        }
    } else if same_text(name, "byte_array") {
        match payload {
            BridgeValue::Sequence(values) => match bytes_of(values) {
                Some(numbers) => Ok(Tag::ByteArray(numbers)),
                None => Err(BridgeError::InvalidValue),
            },
            _ => Err(BridgeError::InvalidValue),
        }
    } else if same_text(name, "string") {
        match payload {
            BridgeValue::Text(text) => Ok(Tag::StringTag(text.clone())),
            _ => Err(BridgeError::InvalidValue),
        }
    } else if same_text(name, "list") {
        match payload {
            BridgeValue::Sequence(values) => {
                let ghost view = values_view(*values);
                proof {
                    sequence_view_each(*values, values@.len());
                }
                let mut items: Vec<Tag> = Vec::new();
                let mut i: usize = 0;
                while i < values.len()
                    invariant
                        i <= values.len(),
                        decoded_items(view, 0, Seq::empty()) == decoded_items(
                            view,
                            i as nat,
                            Tag::ListTag(items)@->List_0,
                        ),
                    decreases values.len() - i,
                {
                    let ghost before = Tag::ListTag(items)@->List_0;
                    proof {
                        list_view_each(items);
                        vstd::std_specs::vec::axiom_vec_index_decreases(*values, i as int);
                    }
                    let item = match bridge_decode(&values[i]) {
                        Ok(item) => item,
                        Err(e) => return Err(e),
                    };
                    items.push(item);
                    proof {
                        list_view_each(items);
                        assert(Tag::ListTag(items)@->List_0 =~= before.push(item@));
                    }
                    i += 1;
                }
                Ok(Tag::ListTag(items))
            },
            _ => Err(BridgeError::InvalidValue),
        }
    } else if same_text(name, "compound") {
        match payload {
            BridgeValue::Record(fields) => {
                let ghost view = fields_view(*fields);
                proof {
                    record_view_each(*fields, fields@.len());
                }
                let mut found = Compound::new();
                let mut i: usize = 0;
                while i < fields.len()
                    invariant
                        i <= fields.len(),
                        decoded_entries(view, 0, Seq::empty()) == decoded_entries(
                            view,
                            i as nat,
                            found@,
                        ),
                    decreases fields.len() - i,
                {
                    proof {
                        vstd::std_specs::vec::axiom_vec_index_decreases(*fields, i as int);
                    }
                    let value = match bridge_decode(&fields[i].1) {
                        Ok(value) => value,
                        Err(e) => return Err(e),
                    };
                    found.insert(fields[i].0.clone(), value);
                    i += 1;
                }
                proof {
                    found.view_of_tag();
                }
                Ok(Tag::CompoundTag(found))
            },
            _ => Err(BridgeError::InvalidValue),
        }
    } else if same_text(name, "int_array") {
        match payload {
            BridgeValue::Sequence(values) => match ints_of(values) {
                Some(numbers) => Ok(Tag::IntArray(numbers)),
                None => Err(BridgeError::InvalidValue),
            },
            _ => Err(BridgeError::InvalidValue),
        }
    } else if same_text(name, "long_array") {
        match payload {
            BridgeValue::Sequence(values) => match longs_of(values) {
                Some(numbers) => Ok(Tag::LongArray(numbers)),
                None => Err(BridgeError::InvalidValue),
            },
            _ => Err(BridgeError::InvalidValue),
        }
    } else {
        Err(BridgeError::UnknownVariant(name.to_owned()))
    }
}

/// The tag tree that a structured value stands for: the inverse of
/// `bridge_encode`. The value is a record of the two fields `type` and
/// `value`, in either order, and of no other; the result is what `decoded`
/// says of it, the tree or the first failure.
pub fn bridge_decode(value: &BridgeValue) -> (r: Result<Tag, BridgeError>)
    ensures
        outcome(r) == decoded(value@),
        r matches Ok(tag) ==> tag@.well_formed(),
    decreases value, 0nat,
{
    proof {
        decoded_well_formed(value@);
    }
    match value {
        BridgeValue::Record(fields) => visit_map(fields),
        _ => Err(BridgeError::InvalidValue),
    }
}

/// The names of the fields and of the kinds, by their lengths and their
/// first characters: no two of them are the same.
pub proof fn names_known()
    ensures
        "type"@.len() == 4 && "type"@[0] == 't',
        "value"@.len() == 5 && "value"@[0] == 'v',
        "byte"@.len() == 4 && "byte"@[0] == 'b',
        "short"@.len() == 5 && "short"@[0] == 's',
        "int"@.len() == 3,
        "long"@.len() == 4 && "long"@[0] == 'l' && "long"@[1] == 'o',
        "float"@.len() == 5 && "float"@[0] == 'f',
        "double"@.len() == 6 && "double"@[0] == 'd',
        "byte_array"@.len() == 10 && "byte_array"@[0] == 'b',
        "string"@.len() == 6 && "string"@[0] == 's',
        "list"@.len() == 4 && "list"@[0] == 'l' && "list"@[1] == 'i',
        "compound"@.len() == 8,
        "int_array"@.len() == 9,
        "long_array"@.len() == 10 && "long_array"@[0] == 'l',
{
    reveal_strlit("type");
    reveal_strlit("value");
    reveal_strlit("byte");
    reveal_strlit("short");
    reveal_strlit("int");
    reveal_strlit("long");
    reveal_strlit("float");
    reveal_strlit("double");
    reveal_strlit("byte_array");
    reveal_strlit("string");
    reveal_strlit("list");
    reveal_strlit("compound");
    reveal_strlit("int_array");
    reveal_strlit("long_array");
}

/// Decoding gives back what was encoded: the structured value of a tag
/// tree in which no compound holds a name twice stands for that tree.
pub proof fn decode_inverts_encode(value: TagView)
    requires
        value.well_formed(),
    ensures
        decoded(encoded(value)) == Ok::<_, BridgeFailure>(value),
    decreases value, 0nat,
{
    names_known();
    let name = kind_name(value);
    let payload = encoded_payload(value);
    let fields = seq![("type"@, BridgeView::Text(name)), ("value"@, payload)];
    assert(encoded(value) == BridgeView::Record(fields));
    first_unknown_first(fields, 2);
    key_index_first(fields, "type"@, 0);
    key_index_first(fields, "value"@, 1);
    assert(decoded(encoded(value)) == decoded_payload(name, payload));
    match value {
        TagView::Byte(n) => {},
        TagView::Short(n) => {},
        TagView::Int(n) => {},
        TagView::Long(n) => {},
        TagView::Float(bits) => {},
        TagView::Double(bits) => {},
        TagView::ByteArray(items) => {
            let values = items.map_values(|n: i8| BridgeView::Integer(n as i64));
            let numbers = Seq::new(values.len(), |i: int| values[i]->Integer_0);
            assert(numbers.map_values(|n: i64| n as i8) =~= items);
        },
        TagView::Text(text) => {},
        TagView::List(items) => {
            assert(items.subrange(0, 0) =~= Seq::<TagView>::empty());
            items_decode_back(items, 0);
        },
        TagView::Compound(entries) => {
            assert(entries.subrange(0, 0) =~= Seq::<(Seq<char>, TagView)>::empty());
            entries_decode_back(entries, 0);
        },
        TagView::IntArray(items) => {
            let values = items.map_values(|n: i32| BridgeView::Integer(n as i64));
            let numbers = Seq::new(values.len(), |i: int| values[i]->Integer_0);
            assert(numbers.map_values(|n: i64| n as i32) =~= items);
        },
        TagView::LongArray(items) => {
            let values = items.map_values(|n: i64| BridgeView::Integer(n));
            let numbers = Seq::new(values.len(), |i: int| values[i]->Integer_0);
            assert(numbers =~= items);
        },
    }
}

/// The records of the items of a list from place `from` on are decoded
/// after those before them.
pub proof fn items_decode_back(items: Seq<TagView>, from: nat)
    requires
        from <= items.len(),
        forall|i: int| 0 <= i < items.len() ==> (#[trigger] items[i]).well_formed(),
    ensures
        decoded_items(encoded_items(items, items.len()), from, items.subrange(0, from as int))
            == Ok::<_, BridgeFailure>(items),
    decreases items, items.len() - from,
{
    encoded_items_each(items, items.len());
    if from == items.len() {
        assert(items.subrange(0, from as int) =~= items);
    } else {
        decode_inverts_encode(items[from as int]);
        assert(items.subrange(0, from as int).push(items[from as int]) =~= items.subrange(
            0,
            from + 1 as int,
        ));
        items_decode_back(items, from + 1);
    }
}

/// The fields of the entries of a compound from place `from` on are
/// decoded after those before them.
pub proof fn entries_decode_back(entries: Seq<(Seq<char>, TagView)>, from: nat)
    requires
        from <= entries.len(),
        distinct_keys(entries),
        forall|i: int| 0 <= i < entries.len() ==> (#[trigger] entries[i]).1.well_formed(),
    ensures
        decoded_entries(
            encoded_entries(entries, entries.len()),
            from,
            entries.subrange(0, from as int),
        ) == Ok::<_, BridgeFailure>(entries),
    decreases entries, entries.len() - from,
{
    let found = entries.subrange(0, from as int);
    encoded_entries_each(entries, entries.len());
    if from == entries.len() {
        assert(found =~= entries);
    } else {
        let name = entries[from as int].0;
        let value = entries[from as int].1;
        decode_inverts_encode(value);
        assert forall|j: int| 0 <= j < found.len() implies (#[trigger] found[j]).0 != name by {
            assert(found[j] == entries[j]);
        }
        key_index_first(found, name, from as int);
        assert(with_entry(found, name, value) =~= entries.subrange(0, from + 1 as int));
        entries_decode_back(entries, from + 1);
    }
}

/// What is decoded holds no name twice in a compound.
pub proof fn decoded_well_formed(value: BridgeView)
    ensures
        decoded(value) matches Ok(tree) ==> tree.well_formed(),
    decreases value, 1nat,
{
    if let BridgeView::Record(fields) = value {
        if decoded(value) is Ok {
            let payload = if fields[0].0 == "type"@ {
                fields[1].1
            } else {
                fields[0].1
            };
            match payload {
                BridgeView::Sequence(values) => {
                    items_decoded_well_formed(values, 0, Seq::empty());
                    if let Ok(items) = decoded_items(values, 0, Seq::empty()) {
                        assert(TagView::List(items)->List_0 == items);
                    }
                },
                BridgeView::Record(inner) => {
                    entries_decoded_well_formed(inner, 0, Seq::empty());
                    if let Ok(entries) = decoded_entries(inner, 0, Seq::empty()) {
                        assert(TagView::Compound(entries)->Compound_0 == entries);
                    }
                },
                _ => {},
            }
        }
    }
}

/// The items that are decoded after well-formed ones are well formed.
pub proof fn items_decoded_well_formed(values: Seq<BridgeView>, from: nat, found: Seq<TagView>)
    requires
        forall|i: int| 0 <= i < found.len() ==> (#[trigger] found[i]).well_formed(),
    ensures
        decoded_items(values, from, found) matches Ok(items) ==> forall|i: int|
            0 <= i < items.len() ==> (#[trigger] items[i]).well_formed(),
    decreases values, values.len() - from,
{
    if from < values.len() {
        decoded_well_formed(values[from as int]);
        if let Ok(item) = decoded(values[from as int]) {
            let later = found.push(item);
            assert forall|i: int| 0 <= i < later.len() implies (#[trigger] later[i]).well_formed() by {
                if i < found.len() {
                    assert(later[i] == found[i]);
                }
            }
            items_decoded_well_formed(values, from + 1, later);
        }
    }
}

/// The entries that are decoded into well-formed ones with distinct names
/// are well formed and have distinct names.
pub proof fn entries_decoded_well_formed(
    fields: Seq<(Seq<char>, BridgeView)>,
    from: nat,
    found: Seq<(Seq<char>, TagView)>,
)
    requires
        distinct_keys(found),
        forall|i: int| 0 <= i < found.len() ==> (#[trigger] found[i]).1.well_formed(),
    ensures
        decoded_entries(fields, from, found) matches Ok(entries) ==> distinct_keys(
            entries,
        ) && forall|i: int| 0 <= i < entries.len() ==> (#[trigger] entries[i]).1.well_formed(),
    decreases fields, fields.len() - from,
{
    if from < fields.len() {
        decoded_well_formed(fields[from as int].1);
        if let Ok(value) = decoded(fields[from as int].1) {
            let name = fields[from as int].0;
            let later = with_entry(found, name, value);
            with_entry_distinct(found, name, value);
            assert forall|i: int| 0 <= i < later.len() implies (#[trigger] later[i]).1.well_formed() by {
                if later[i] != (name, value) {
                    assert(later[i] == found[i]);
                }
            }
            entries_decoded_well_formed(fields, from + 1, later);
        }
    }
}

} // verus!
