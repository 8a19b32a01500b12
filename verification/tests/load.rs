use nbt_codec::load::{load_file, message, Picked};
use nbt_codec::tag::{Compound, Tag, TagError};

#[test]
fn no_file_picked_is_no_failure() {
    assert_eq!(load_file(Picked::Nothing), Err(None));
}

#[test]
fn file_that_cannot_be_opened_is_told() {
    assert_eq!(load_file(Picked::Unopened), Err(Some("Reading file".to_string())));
}

#[test]
fn file_that_cannot_be_read_is_told() {
    assert_eq!(load_file(Picked::Unread), Err(Some("Reading data from file".to_string())));
}

#[test]
fn document_is_loaded() {
    let mut root = Compound::new();
    root.insert("hp".to_string(), Tag::IntTag(20));
    assert_eq!(
        load_file(Picked::Bytes(vec![3, 0, 2, b'h', b'p', 0, 0, 0, 20])),
        Ok(Tag::CompoundTag(root))
    );
}

#[test]
fn each_failure_of_the_codec_has_its_message() {
    assert_eq!(
        load_file(Picked::Bytes(vec![0x0D])),
        Err(Some("Invalid tag type encountered".to_string()))
    );
    assert_eq!(
        load_file(Picked::Bytes(vec![8, 0, 0, 0, 1, 0xff])),
        Err(Some("Invalid string encountered".to_string()))
    );
    assert_eq!(
        load_file(Picked::Bytes(vec![3, 0, 0, 1])),
        Err(Some("Reading data from file".to_string()))
    );
}

#[test]
fn messages_by_kind_of_error() {
    assert_eq!(message(&TagError::InvalidType), "Invalid tag type encountered");
    assert_eq!(message(&TagError::InvalidUtf8(vec![0xff])), "Invalid string encountered");
    assert_eq!(message(&TagError::IoError), "Reading data from file");
}
