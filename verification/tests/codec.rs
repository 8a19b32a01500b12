use nbt_codec::tag::{Compound, Tag, TagError};

fn compound(entries: Vec<(&str, Tag)>) -> Tag {
    let mut found = Compound::new();
    for (name, tag) in entries {
        found.insert(name.to_string(), tag);
    }
    Tag::CompoundTag(found)
}

fn steve() -> Tag {
    compound(vec![("hp", Tag::IntTag(20)), ("name", Tag::StringTag("Steve".to_string()))])
}

fn written(tag: &Tag) -> Vec<u8> {
    let mut buf: Vec<u8> = Vec::new();
    tag.write(&mut buf).unwrap();
    buf
}

/// The bytes of a document with one entry, whose name is empty.
fn entry(tag: Tag) -> Vec<u8> {
    written(&compound(vec![("", tag)]))
}

fn every_kind() -> Tag {
    compound(vec![
        ("byte", Tag::ByteTag(-128)),
        ("short", Tag::ShortTag(-5000)),
        ("int", Tag::IntTag(i32::MIN)),
        ("long", Tag::LongTag(i64::MAX)),
        ("float", Tag::FloatTag(1.5f32.to_bits())),
        ("double", Tag::DoubleTag((-0.1f64).to_bits())),
        ("bytes", Tag::ByteArray(vec![0, 1, -1, 127, -128])),
        ("string", Tag::StringTag("h\u{e9}llo \u{4e16}\u{754c}".to_string())),
        ("list", Tag::ListTag(vec![Tag::ShortTag(1), Tag::ShortTag(2), Tag::ShortTag(-3)])),
        ("empty", Tag::ListTag(vec![])),
        (
            "nested",
            compound(vec![
                ("inner", compound(vec![])),
                (
                    "lists",
                    Tag::ListTag(vec![
                        Tag::ListTag(vec![Tag::IntTag(1)]),
                        Tag::ListTag(vec![]),
                        Tag::ListTag(vec![Tag::StringTag("x".to_string())]),
                    ]),
                ),
                (
                    "compounds",
                    Tag::ListTag(vec![
                        compound(vec![("a", Tag::ByteTag(1))]),
                        compound(vec![("b", Tag::LongArray(vec![i64::MIN, 0, i64::MAX]))]),
                    ]),
                ),
            ]),
        ),
        ("ints", Tag::IntArray(vec![i32::MIN, -1, 0, 1, i32::MAX])),
        ("longs", Tag::LongArray(vec![-2, 2])),
    ])
}

#[test]
fn example_document_bytes() {
    let expected: Vec<u8> = vec![
        0x03, 0x00, 0x02, b'h', b'p', 0x00, 0x00, 0x00, 0x14, 0x08, 0x00, 0x04, b'n', b'a', b'm',
        b'e', 0x00, 0x05, b'S', b't', b'e', b'v', b'e',
    ];
    assert_eq!(written(&steve()), expected);
}

#[test]
fn example_document_reads_back() {
    assert_eq!(Tag::read(&written(&steve())), Ok(steve()));
}

#[test]
fn every_kind_reads_back() {
    assert_eq!(Tag::read(&written(&every_kind())), Ok(every_kind()));
}

#[test]
fn write_goes_to_the_end_of_the_buffer() {
    let mut buf: Vec<u8> = vec![0xAA, 0xBB];
    steve().write(&mut buf).unwrap();
    assert_eq!(&buf[..2], &[0xAA, 0xBB]);
    assert_eq!(&buf[2..], &written(&steve())[..]);
}

#[test]
fn root_must_be_compound() {
    let mut buf: Vec<u8> = vec![7];
    assert_eq!(Tag::IntTag(1).write(&mut buf), Err(TagError::InvalidType));
    assert_eq!(Tag::ListTag(vec![]).write(&mut buf), Err(TagError::InvalidType));
    assert_eq!(buf, vec![7]);
}

#[test]
fn empty_root_writes_nothing() {
    assert_eq!(written(&compound(vec![])), Vec::<u8>::new());
    assert_eq!(Tag::read(&[]), Ok(compound(vec![])));
}

#[test]
fn byte_is_one_byte_of_twos_complement() {
    assert_eq!(entry(Tag::ByteTag(-5)), vec![1, 0, 0, 0xfb]);
    assert_eq!(entry(Tag::ByteTag(2)), vec![1, 0, 0, 0x02]);
}

#[test]
fn short_is_two_bytes_big_endian() {
    assert_eq!(entry(Tag::ShortTag(-5000)), vec![2, 0, 0, 0xec, 0x78]);
    assert_eq!(entry(Tag::ShortTag(0x0102)), vec![2, 0, 0, 0x01, 0x02]);
}

#[test]
fn int_is_four_bytes_big_endian() {
    assert_eq!(entry(Tag::IntTag(-34253)), vec![3, 0, 0, 0xff, 0xff, 0x7a, 0x33]);
    assert_eq!(entry(Tag::IntTag(1205419366)), vec![3, 0, 0, 0x47, 0xd9, 0x3d, 0x66]);
}

#[test]
fn long_is_eight_bytes_big_endian() {
    assert_eq!(
        entry(Tag::LongTag(-2)),
        vec![4, 0, 0, 0xff, 0xff, 0xff, 0xff, 0xff, 0xff, 0xff, 0xfe]
    );
    assert_eq!(
        entry(Tag::LongTag(0x0102030405060708)),
        vec![4, 0, 0, 1, 2, 3, 4, 5, 6, 7, 8]
    );
}

#[test]
fn float_is_its_binary32_bits() {
    assert_eq!(
        entry(Tag::FloatTag(std::f32::consts::PI.to_bits())),
        vec![5, 0, 0, 0x40, 0x49, 0x0f, 0xdb]
    );
}

#[test]
fn double_is_its_binary64_bits() {
    assert_eq!(
        entry(Tag::DoubleTag(std::f64::consts::PI.to_bits())),
        vec![6, 0, 0, 0x40, 0x09, 0x21, 0xfb, 0x54, 0x44, 0x2d, 0x18]
    );
}

#[test]
fn arrays_are_a_count_and_the_items() {
    assert_eq!(entry(Tag::ByteArray(vec![1, -1])), vec![7, 0, 0, 0, 0, 0, 2, 0x01, 0xff]);
    assert_eq!(
        entry(Tag::IntArray(vec![1, -1])),
        vec![11, 0, 0, 0, 0, 0, 2, 0, 0, 0, 1, 0xff, 0xff, 0xff, 0xff]
    );
    assert_eq!(
        entry(Tag::LongArray(vec![258])),
        vec![12, 0, 0, 0, 0, 0, 1, 0, 0, 0, 0, 0, 0, 1, 2]
    );
    assert_eq!(entry(Tag::IntArray(vec![])), vec![11, 0, 0, 0, 0, 0, 0]);
}

#[test]
fn string_is_its_byte_length_and_its_bytes() {
    assert_eq!(
        entry(Tag::StringTag("h\u{e9}".to_string())),
        vec![8, 0, 0, 0, 3, b'h', 0xc3, 0xa9]
    );
    assert_eq!(
        written(&compound(vec![("\u{e9}", Tag::ByteTag(0))])),
        vec![1, 0, 2, 0xc3, 0xa9, 0]
    );
}

#[test]
fn list_is_one_type_byte_a_count_and_bare_payloads() {
    assert_eq!(
        entry(Tag::ListTag(vec![Tag::ShortTag(1), Tag::ShortTag(2)])),
        vec![9, 0, 0, 2, 0, 0, 0, 2, 0, 1, 0, 2]
    );
}

#[test]
fn empty_list_is_type_zero_and_count_zero() {
    assert_eq!(entry(Tag::ListTag(vec![])), vec![9, 0, 0, 0, 0, 0, 0, 0]);
    assert_eq!(
        Tag::read(&[9, 0, 0, 0, 0, 0, 0, 0]),
        Ok(compound(vec![("", Tag::ListTag(vec![]))]))
    );
}

#[test]
fn list_without_items_reads_as_empty_whatever_kind_it_declares() {
    for kind in 0u8..=12 {
        assert_eq!(
            Tag::read(&[9, 0, 1, b'l', kind, 0, 0, 0, 0]),
            Ok(compound(vec![("l", Tag::ListTag(vec![]))]))
        );
    }
}

#[test]
fn nested_compound_ends_with_zero_and_the_root_does_not() {
    let tree = compound(vec![("c", compound(vec![("b", Tag::ByteTag(7))]))]);
    assert_eq!(written(&tree), vec![10, 0, 1, b'c', 1, 0, 1, b'b', 7, 0]);
    assert_eq!(Tag::read(&[10, 0, 1, b'c', 1, 0, 1, b'b', 7, 0]), Ok(tree));
}

#[test]
fn list_of_mixed_kinds_is_rejected() {
    let tree = compound(vec![("l", Tag::ListTag(vec![Tag::IntTag(1), Tag::ShortTag(2)]))]);
    let mut buf: Vec<u8> = vec![1, 2, 3];
    assert_eq!(tree.write(&mut buf), Err(TagError::InvalidType));
    assert_eq!(buf, vec![1, 2, 3]);
    assert!(!tree.is_uniform());
}

#[test]
fn list_of_mixed_kinds_deep_in_the_tree_is_rejected() {
    let tree = compound(vec![(
        "a",
        Tag::ListTag(vec![compound(vec![(
            "b",
            Tag::ListTag(vec![Tag::ByteTag(1), Tag::LongTag(2)]),
        )])]),
    )]);
    let mut buf: Vec<u8> = Vec::new();
    assert_eq!(tree.write(&mut buf), Err(TagError::InvalidType));
    assert!(buf.is_empty());
}

#[test]
fn string_of_more_than_65535_bytes_is_rejected() {
    let just_fits = compound(vec![("s", Tag::StringTag("a".repeat(65535)))]);
    let bytes = written(&just_fits);
    assert_eq!(&bytes[..6], &[8, 0, 1, b's', 0xff, 0xff]);
    assert_eq!(bytes.len(), 6 + 65535);
    assert_eq!(Tag::read(&bytes), Ok(just_fits));

    let too_long = compound(vec![("s", Tag::StringTag("a".repeat(65536)))]);
    let mut buf: Vec<u8> = vec![9];
    assert_eq!(too_long.write(&mut buf), Err(TagError::IoError));
    assert_eq!(buf, vec![9]);
    assert!(!too_long.fits());
}

#[test]
fn name_of_more_than_65535_bytes_is_rejected() {
    let mut found = Compound::new();
    found.insert("n".repeat(65536), Tag::ByteTag(0));
    let mut buf: Vec<u8> = Vec::new();
    assert_eq!(Tag::CompoundTag(found).write(&mut buf), Err(TagError::IoError));
    assert!(buf.is_empty());
}

#[test]
fn mixed_list_counts_before_a_length_that_does_not_fit() {
    let tree = compound(vec![
        ("s", Tag::StringTag("a".repeat(65536))),
        ("l", Tag::ListTag(vec![Tag::IntTag(1), Tag::ShortTag(2)])),
    ]);
    let mut buf: Vec<u8> = Vec::new();
    assert_eq!(tree.write(&mut buf), Err(TagError::InvalidType));
}

#[test]
fn scalars_are_read_in_twos_complement() {
    assert_eq!(Tag::read(&[1, 0, 0, 0xfb]), Ok(compound(vec![("", Tag::ByteTag(-5))])));
    assert_eq!(
        Tag::read(&[2, 0, 0, 0xec, 0x78]),
        Ok(compound(vec![("", Tag::ShortTag(-5000))]))
    );
    assert_eq!(
        Tag::read(&[3, 0, 0, 0xff, 0xff, 0x7a, 0x33]),
        Ok(compound(vec![("", Tag::IntTag(-34253))]))
    );
    assert_eq!(
        Tag::read(&[4, 0, 0, 0xff, 0xff, 0xff, 0xff, 0xff, 0xff, 0xff, 0xfe]),
        Ok(compound(vec![("", Tag::LongTag(-2))]))
    );
    assert_eq!(
        Tag::read(&[5, 0, 0, 0x40, 0x49, 0x0f, 0xdb]),
        Ok(compound(vec![("", Tag::FloatTag(std::f32::consts::PI.to_bits()))]))
    );
    assert_eq!(
        Tag::read(&[6, 0, 0, 0x40, 0x09, 0x21, 0xfb, 0x54, 0x44, 0x2d, 0x18]),
        Ok(compound(vec![("", Tag::DoubleTag(std::f64::consts::PI.to_bits()))]))
    );
}

#[test]
fn arrays_are_read_item_by_item() {
    assert_eq!(
        Tag::read(&[7, 0, 0, 0, 0, 0, 3, 0x01, 0xff, 0x80]),
        Ok(compound(vec![("", Tag::ByteArray(vec![1, -1, -128]))]))
    );
    assert_eq!(
        Tag::read(&[11, 0, 0, 0, 0, 0, 2, 0, 0, 1, 2, 0xff, 0xff, 0xff, 0xfe]),
        Ok(compound(vec![("", Tag::IntArray(vec![258, -2]))]))
    );
    assert_eq!(
        Tag::read(&[12, 0, 0, 0, 0, 0, 1, 0x80, 0, 0, 0, 0, 0, 0, 0]),
        Ok(compound(vec![("", Tag::LongArray(vec![i64::MIN]))]))
    );
}

#[test]
fn unknown_type_byte_is_invalid_type() {
    assert_eq!(Tag::read(&[0x0D]), Err(TagError::InvalidType));
    assert_eq!(Tag::read(&[0x0D, 0, 0, 0]), Err(TagError::InvalidType));
    assert_eq!(Tag::read(&[0xff, 0, 0]), Err(TagError::InvalidType));
}

#[test]
fn unknown_type_byte_after_good_entries_is_invalid_type() {
    let mut bytes = written(&steve());
    bytes.push(0x0D);
    bytes.extend_from_slice(&[0, 1, b'x', 0]);
    assert_eq!(Tag::read(&bytes), Err(TagError::InvalidType));
}

#[test]
fn unknown_type_byte_inside_a_compound_is_invalid_type() {
    assert_eq!(Tag::read(&[10, 0, 1, b'c', 0x0D, 0, 0, 0, 0]), Err(TagError::InvalidType));
    assert_eq!(
        Tag::read(&[10, 0, 1, b'c', 10, 0, 1, b'd', 1, 0, 0, 5, 0x0D, 0, 0]),
        Err(TagError::InvalidType)
    );
}

#[test]
fn unknown_item_kind_of_a_list_is_invalid_type() {
    assert_eq!(Tag::read(&[9, 0, 0, 0x0D, 0, 0, 0, 0]), Err(TagError::InvalidType));
    assert_eq!(Tag::read(&[9, 0, 0, 0x0D, 0, 0, 0, 1, 0]), Err(TagError::InvalidType));
    assert_eq!(
        Tag::read(&[9, 0, 0, 9, 0, 0, 0, 1, 0x0D, 0, 0, 0, 0]),
        Err(TagError::InvalidType)
    );
}

#[test]
fn end_byte_at_the_root_is_invalid_type() {
    assert_eq!(Tag::read(&[0]), Err(TagError::InvalidType));
    let mut bytes = written(&steve());
    bytes.push(0);
    assert_eq!(Tag::read(&bytes), Err(TagError::InvalidType));
}

#[test]
fn items_of_kind_zero_are_invalid_type() {
    assert_eq!(Tag::read(&[9, 0, 0, 0, 0, 0, 0, 1]), Err(TagError::InvalidType));
}

#[test]
fn string_shorter_than_declared_is_io_error() {
    assert_eq!(Tag::read(&[8, 0, 0, 0, 5, b'a', b'b', b'c']), Err(TagError::IoError));
    assert_eq!(Tag::read(&[8, 0, 0, 0]), Err(TagError::IoError));
    assert_eq!(Tag::read(&[8, 0, 4, b'n', b'a']), Err(TagError::IoError));
    assert_eq!(Tag::read(&[8]), Err(TagError::IoError));
}

#[test]
fn string_cut_inside_a_character_is_io_error() {
    assert_eq!(Tag::read(&[8, 0, 0, 0, 2, 0xc3]), Err(TagError::IoError));
}

#[test]
fn array_shorter_than_declared_is_io_error() {
    assert_eq!(Tag::read(&[7, 0, 0, 0, 0, 0, 3, 1, 2]), Err(TagError::IoError));
    assert_eq!(
        Tag::read(&[11, 0, 0, 0, 0, 0, 2, 0, 0, 0, 1, 0, 0, 0]),
        Err(TagError::IoError)
    );
    assert_eq!(
        Tag::read(&[12, 0, 0, 0, 0, 0, 1, 0, 0, 0, 0, 0, 0, 0]),
        Err(TagError::IoError)
    );
    assert_eq!(
        Tag::read(&[11, 0, 0, 0x7f, 0xff, 0xff, 0xff, 0, 0, 0, 1]),
        Err(TagError::IoError)
    );
    assert_eq!(Tag::read(&[7, 0, 0, 0, 0]), Err(TagError::IoError));
}

#[test]
fn scalar_shorter_than_its_width_is_io_error() {
    assert_eq!(Tag::read(&[1, 0, 0]), Err(TagError::IoError));
    assert_eq!(Tag::read(&[2, 0, 0, 1]), Err(TagError::IoError));
    assert_eq!(Tag::read(&[3, 0, 0, 1, 2, 3]), Err(TagError::IoError));
    assert_eq!(Tag::read(&[4, 0, 0, 1, 2, 3, 4, 5, 6, 7]), Err(TagError::IoError));
    assert_eq!(Tag::read(&[5, 0, 0, 1, 2, 3]), Err(TagError::IoError));
    assert_eq!(Tag::read(&[6, 0, 0, 1, 2, 3, 4, 5, 6, 7]), Err(TagError::IoError));
}

#[test]
fn list_shorter_than_declared_is_io_error() {
    assert_eq!(Tag::read(&[9, 0, 0, 1, 0, 0, 0, 3, 1, 2]), Err(TagError::IoError));
    assert_eq!(Tag::read(&[9, 0, 0]), Err(TagError::IoError));
    assert_eq!(Tag::read(&[9, 0, 0, 1, 0, 0]), Err(TagError::IoError));
}

#[test]
fn nested_compound_without_its_end_is_io_error() {
    assert_eq!(Tag::read(&[10, 0, 1, b'c', 1, 0, 1, b'b', 7]), Err(TagError::IoError));
    assert_eq!(Tag::read(&[10, 0, 1, b'c']), Err(TagError::IoError));
}

#[test]
fn negative_count_is_io_error() {
    assert_eq!(Tag::read(&[7, 0, 0, 0xff, 0xff, 0xff, 0xff]), Err(TagError::IoError));
    assert_eq!(Tag::read(&[9, 0, 0, 1, 0x80, 0, 0, 0]), Err(TagError::IoError));
    assert_eq!(Tag::read(&[12, 0, 0, 0xff, 0xff, 0xff, 0xfe]), Err(TagError::IoError));
}

#[test]
fn string_that_is_not_utf8_is_invalid_utf8() {
    assert_eq!(
        Tag::read(&[8, 0, 1, b's', 0, 2, 0xff, 0xfe]),
        Err(TagError::InvalidUtf8(vec![0xff, 0xfe]))
    );
    assert_eq!(
        Tag::read(&[8, 0, 0, 0, 3, 0xed, 0xa0, 0x80]),
        Err(TagError::InvalidUtf8(vec![0xed, 0xa0, 0x80]))
    );
}

#[test]
fn name_that_is_not_utf8_is_invalid_utf8() {
    assert_eq!(Tag::read(&[1, 0, 1, 0x80, 5]), Err(TagError::InvalidUtf8(vec![0x80])));
}

#[test]
fn invalid_utf8_deep_in_the_tree_is_reported() {
    let mut bytes = written(&steve());
    bytes.extend_from_slice(&[10, 0, 1, b'c', 9, 0, 1, b'l', 8, 0, 0, 0, 1, 0, 1, 0xc0]);
    assert_eq!(Tag::read(&bytes), Err(TagError::InvalidUtf8(vec![0xc0])));
}

#[test]
fn name_read_twice_takes_the_later_value_at_the_first_place() {
    let bytes = [1, 0, 1, b'a', 1, 1, 0, 1, b'b', 2, 3, 0, 1, b'a', 0, 0, 0, 9];
    assert_eq!(
        Tag::read(&bytes),
        Ok(compound(vec![("a", Tag::IntTag(9)), ("b", Tag::ByteTag(2))]))
    );
}

#[test]
fn entries_keep_their_order() {
    let forward = compound(vec![("a", Tag::ByteTag(1)), ("b", Tag::ByteTag(2))]);
    let backward = compound(vec![("b", Tag::ByteTag(2)), ("a", Tag::ByteTag(1))]);
    assert_eq!(written(&forward), vec![1, 0, 1, b'a', 1, 1, 0, 1, b'b', 2]);
    assert_eq!(written(&backward), vec![1, 0, 1, b'b', 2, 1, 0, 1, b'a', 1]);
    assert_eq!(Tag::read(&written(&backward)), Ok(backward));
}

#[test]
fn type_bytes_are_one_to_twelve() {
    assert_eq!(Tag::ByteTag(0).get_type(), 1);
    assert_eq!(Tag::ShortTag(0).get_type(), 2);
    assert_eq!(Tag::IntTag(0).get_type(), 3);
    assert_eq!(Tag::LongTag(0).get_type(), 4);
    assert_eq!(Tag::FloatTag(0).get_type(), 5);
    assert_eq!(Tag::DoubleTag(0).get_type(), 6);
    assert_eq!(Tag::ByteArray(vec![]).get_type(), 7);
    assert_eq!(Tag::StringTag(String::new()).get_type(), 8);
    assert_eq!(Tag::ListTag(vec![]).get_type(), 9);
    assert_eq!(Tag::CompoundTag(Compound::new()).get_type(), 10);
    assert_eq!(Tag::IntArray(vec![]).get_type(), 11);
    assert_eq!(Tag::LongArray(vec![]).get_type(), 12);
}

#[test]
fn payload_and_type_are_written_apart() {
    let mut buf: Vec<u8> = Vec::new();
    let tag = Tag::ListTag(vec![Tag::ByteTag(1)]);
    tag.write_type(&mut buf);
    tag.write_element(&mut buf);
    assert_eq!(buf, vec![9, 1, 0, 0, 0, 1, 1]);
}
