use nbt_codec::tag::{same_text, Compound, Tag};

fn sample() -> Vec<Tag> {
    let mut inner = Compound::new();
    inner.insert("k".to_string(), Tag::ByteTag(1));
    vec![
        Tag::ByteTag(1),
        Tag::ShortTag(2),
        Tag::IntTag(3),
        Tag::LongTag(4),
        Tag::FloatTag(5),
        Tag::DoubleTag(6),
        Tag::ByteArray(vec![7]),
        Tag::StringTag("8".to_string()),
        Tag::ListTag(vec![Tag::ByteTag(9)]),
        Tag::CompoundTag(inner),
        Tag::IntArray(vec![11]),
        Tag::LongArray(vec![12]),
    ]
}

#[test]
fn each_accessor_answers_for_its_own_kind_only() {
    let tags = sample();
    for (at, tag) in tags.iter().enumerate() {
        assert_eq!(tag.byte().is_some(), at == 0);
        assert_eq!(tag.short().is_some(), at == 1);
        assert_eq!(tag.as_int().is_some(), at == 2);
        assert_eq!(tag.long().is_some(), at == 3);
        assert_eq!(tag.float().is_some(), at == 4);
        assert_eq!(tag.double().is_some(), at == 5);
        assert_eq!(tag.byte_array().is_some(), at == 6);
        assert_eq!(tag.string().is_some(), at == 7);
        assert_eq!(tag.list().is_some(), at == 8);
        assert_eq!(tag.compound().is_some(), at == 9);
        assert_eq!(tag.int_array().is_some(), at == 10);
        assert_eq!(tag.long_array().is_some(), at == 11);
    }
}

#[test]
fn accessors_give_what_the_tag_holds() {
    let tags = sample();
    assert_eq!(tags[0].byte(), Some(&1));
    assert_eq!(tags[1].short(), Some(&2));
    assert_eq!(tags[2].as_int(), Some(&3));
    assert_eq!(tags[3].long(), Some(&4));
    assert_eq!(tags[4].float(), Some(&5));
    assert_eq!(tags[5].double(), Some(&6));
    assert_eq!(tags[6].byte_array(), Some(&vec![7]));
    assert_eq!(tags[7].string(), Some(&"8".to_string()));
    assert_eq!(tags[8].list(), Some(&vec![Tag::ByteTag(9)]));
    assert_eq!(tags[9].compound().unwrap().get("k"), Some(&Tag::ByteTag(1)));
    assert_eq!(tags[10].int_array(), Some(&vec![11]));
    assert_eq!(tags[11].long_array(), Some(&vec![12]));
}

#[test]
fn each_mutable_accessor_answers_for_its_own_kind_only() {
    let mut tags = sample();
    for (at, tag) in tags.iter_mut().enumerate() {
        assert_eq!(tag.byte_mut().is_some(), at == 0);
        assert_eq!(tag.short_mut().is_some(), at == 1);
        assert_eq!(tag.int_mut().is_some(), at == 2);
        assert_eq!(tag.long_mut().is_some(), at == 3);
        assert_eq!(tag.float_mut().is_some(), at == 4);
        assert_eq!(tag.double_mut().is_some(), at == 5);
        assert_eq!(tag.byte_array_mut().is_some(), at == 6);
        assert_eq!(tag.string_mut().is_some(), at == 7);
        assert_eq!(tag.list_mut().is_some(), at == 8);
        assert_eq!(tag.compound_mut().is_some(), at == 9);
        assert_eq!(tag.int_array_mut().is_some(), at == 10);
        assert_eq!(tag.long_array_mut().is_some(), at == 11);
    }
    assert_eq!(tags, sample());
}

#[test]
fn mutable_accessors_change_the_tag_in_place() {
    let mut tags = sample();
    *tags[0].byte_mut().unwrap() = -1;
    *tags[1].short_mut().unwrap() = -2;
    *tags[2].int_mut().unwrap() = -3;
    *tags[3].long_mut().unwrap() = -4;
    *tags[4].float_mut().unwrap() = 2.5f32.to_bits();
    *tags[5].double_mut().unwrap() = 2.5f64.to_bits();
    tags[6].byte_array_mut().unwrap().push(1);
    tags[7].string_mut().unwrap().push('!');
    tags[8].list_mut().unwrap().clear();
    tags[9].compound_mut().unwrap().insert("k".to_string(), Tag::ByteTag(2));
    tags[10].int_array_mut().unwrap()[0] = 0;
    tags[11].long_array_mut().unwrap().pop();
    assert_eq!(tags[0], Tag::ByteTag(-1));
    assert_eq!(tags[1], Tag::ShortTag(-2));
    assert_eq!(tags[2], Tag::IntTag(-3));
    assert_eq!(tags[3], Tag::LongTag(-4));
    assert_eq!(tags[4], Tag::FloatTag(2.5f32.to_bits()));
    assert_eq!(tags[5], Tag::DoubleTag(2.5f64.to_bits()));
    assert_eq!(tags[6], Tag::ByteArray(vec![7, 1]));
    assert_eq!(tags[7], Tag::StringTag("8!".to_string()));
    assert_eq!(tags[8], Tag::ListTag(vec![]));
    assert_eq!(tags[9].compound().unwrap().get("k"), Some(&Tag::ByteTag(2)));
    assert_eq!(tags[10], Tag::IntArray(vec![0]));
    assert_eq!(tags[11], Tag::LongArray(vec![]));
}

#[test]
fn leaves_are_counted() {
    let mut inner = Compound::new();
    inner.insert("e".to_string(), Tag::LongArray(vec![1, 2]));
    inner.insert("f".to_string(), Tag::ListTag(vec![]));
    let mut root = Compound::new();
    root.insert("a".to_string(), Tag::IntTag(1));
    root.insert("b".to_string(), Tag::ByteArray(vec![1, 2, 3]));
    root.insert(
        "c".to_string(),
        Tag::ListTag(vec![Tag::StringTag("x".to_string()), Tag::StringTag("yz".to_string())]),
    );
    root.insert("d".to_string(), Tag::CompoundTag(inner));
    let mut counter: usize = 0;
    Tag::CompoundTag(root).count_elements(&mut counter);
    assert_eq!(counter, 1 + 3 + 2 + 2);
}

#[test]
fn counting_adds_to_what_the_counter_holds() {
    let mut counter: usize = 40;
    Tag::DoubleTag(0).count_elements(&mut counter);
    Tag::IntArray(vec![1, 2]).count_elements(&mut counter);
    Tag::IntArray(vec![]).count_elements(&mut counter);
    Tag::CompoundTag(Compound::new()).count_elements(&mut counter);
    assert_eq!(counter, 43);
}

#[test]
fn each_scalar_counts_for_one() {
    let scalars = vec![
        Tag::ByteTag(1),
        Tag::ShortTag(2),
        Tag::IntTag(3),
        Tag::LongTag(4),
        Tag::FloatTag(5),
        Tag::DoubleTag(6),
        Tag::StringTag("seven".to_string()),
    ];
    for tag in scalars {
        let mut counter: usize = 0;
        tag.count_elements(&mut counter);
        assert_eq!(counter, 1);
    }
}

#[test]
fn compound_keeps_names_in_the_order_of_their_first_coming() {
    let mut c = Compound::new();
    assert!(c.is_empty());
    assert_eq!(c.len(), 0);
    assert_eq!(c.insert("b".to_string(), Tag::ByteTag(1)), None);
    assert_eq!(c.insert("a".to_string(), Tag::ByteTag(2)), None);
    assert_eq!(c.insert("b".to_string(), Tag::ByteTag(3)), Some(Tag::ByteTag(1)));
    assert!(!c.is_empty());
    assert_eq!(c.len(), 2);
    assert_eq!(c.key_at(0), "b");
    assert_eq!(c.value_at(0), &Tag::ByteTag(3));
    assert_eq!(c.key_at(1), "a");
    assert_eq!(c.value_at(1), &Tag::ByteTag(2));
    c.keys_are_distinct();
}

#[test]
fn compound_finds_by_name() {
    let mut c = Compound::new();
    c.insert("hp".to_string(), Tag::IntTag(20));
    c.insert("name".to_string(), Tag::StringTag("Steve".to_string()));
    assert_eq!(c.get("hp"), Some(&Tag::IntTag(20)));
    assert_eq!(c.get("name"), Some(&Tag::StringTag("Steve".to_string())));
    assert_eq!(c.get("h"), None);
    assert_eq!(c.get(""), None);
    assert_eq!(c.position("name"), Some(1));
    assert_eq!(c.position("Name"), None);
    assert!(c.contains_key("hp"));
    assert!(!c.contains_key("hpp"));
}

#[test]
fn texts_are_compared_by_their_characters() {
    assert!(same_text("", ""));
    assert!(same_text("type", "type"));
    assert!(!same_text("type", "typo"));
    assert!(!same_text("type", "types"));
    assert!(!same_text("\u{e9}", "e"));
    assert!(same_text("\u{4e16}\u{754c}", "\u{4e16}\u{754c}"));
}

#[test]
fn compound_lets_an_entry_go() {
    let mut c = Compound::new();
    c.insert("a".to_string(), Tag::ByteTag(1));
    c.insert("b".to_string(), Tag::ByteTag(2));
    c.insert("c".to_string(), Tag::ByteTag(3));
    assert_eq!(c.remove("b"), Some(Tag::ByteTag(2)));
    assert_eq!(c.remove("b"), None);
    assert_eq!(c.len(), 2);
    assert_eq!(c.key_at(0), "a");
    assert_eq!(c.key_at(1), "c");
    assert_eq!(c.insert("b".to_string(), Tag::ByteTag(4)), None);
    assert_eq!(c.position("b"), Some(2));
}
