use nbt_codec::bridge::{bridge_decode, bridge_encode};
use nbt_codec::tag::{Compound, Tag, TagError};

/// A small generator of numbers that gives the same numbers every time.
struct Numbers(u64);

impl Numbers {
    fn next(&mut self) -> u64 {
        self.0 = self.0.wrapping_mul(6364136223846793005).wrapping_add(1442695040888963407);
        self.0 >> 16
    }

    fn below(&mut self, bound: u64) -> u64 {
        self.next() % bound
    }

    fn text(&mut self) -> String {
        let letters = ['a', 'b', 'z', '_', ' ', '\u{e9}', '\u{4e16}', '\u{1f600}'];
        let mut text = String::new();
        for _ in 0..self.below(6) {
            text.push(letters[self.below(letters.len() as u64) as usize]);
        }
        text
    }

    fn leaf(&mut self, kind: u64) -> Tag {
        match kind {
            0 => Tag::ByteTag(self.next() as i8),
            1 => Tag::ShortTag(self.next() as i16),
            2 => Tag::IntTag(self.next() as i32),
            3 => Tag::LongTag((self.next() << 16 ^ self.next()) as i64),
            4 => Tag::FloatTag(self.next() as u32),
            5 => Tag::DoubleTag(self.next() << 16 ^ self.next()),
            6 => Tag::ByteArray((0..self.below(5)).map(|_| self.next() as i8).collect()),
            7 => Tag::StringTag(self.text()),
            8 => Tag::IntArray((0..self.below(5)).map(|_| self.next() as i32).collect()),
            _ => Tag::LongArray((0..self.below(5)).map(|_| self.next() as i64).collect()),
        }
    }

    fn tag_of(&mut self, kind: u64, depth: u32) -> Tag {
        match kind {
            10 if depth > 0 => {
                let item_kind = self.below(12);
                Tag::ListTag((0..self.below(4)).map(|_| self.tag_of(item_kind, depth - 1)).collect())
            }
            11 if depth > 0 => self.compound(depth - 1),
            _ => self.leaf(kind % 10),
        }
    }

    fn compound(&mut self, depth: u32) -> Tag {
        let mut found = Compound::new();
        for _ in 0..self.below(5) {
            let kind = self.below(12);
            let tag = self.tag_of(kind, depth);
            found.insert(self.text(), tag);
        }
        Tag::CompoundTag(found)
    }
}

#[test]
fn trees_read_back_as_they_were_written() {
    let mut numbers = Numbers(1);
    for _ in 0..300 {
        let tree = numbers.compound(4);
        let mut buf: Vec<u8> = Vec::new();
        assert_eq!(tree.write(&mut buf), Ok(()));
        assert_eq!(Tag::read(&buf), Ok(tree));
    }
}

#[test]
fn trees_decode_back_as_they_were_encoded() {
    let mut numbers = Numbers(2);
    for _ in 0..300 {
        let kind = numbers.below(12);
        let tree = numbers.tag_of(kind, 4);
        assert_eq!(bridge_decode(&bridge_encode(&tree)), Ok(tree));
    }
}

#[test]
fn document_that_is_cut_short_is_a_shorter_document_or_io_error() {
    let mut numbers = Numbers(3);
    for _ in 0..40 {
        let tree = numbers.compound(3);
        let mut buf: Vec<u8> = Vec::new();
        tree.write(&mut buf).unwrap();
        for cut in 0..buf.len() {
            match Tag::read(&buf[..cut]) {
                Ok(Tag::CompoundTag(found)) => {
                    assert!(found.len() <= tree.compound().unwrap().len())
                }
                Ok(other) => panic!("the root is {:?}", other),
                Err(error) => assert_eq!(error, TagError::IoError),
            }
        }
    }
}

#[test]
fn nested_value_that_is_cut_short_is_io_error() {
    let mut numbers = Numbers(4);
    for _ in 0..40 {
        let inner = numbers.compound(3);
        let mut outer = Compound::new();
        outer.insert("only".to_string(), inner);
        let mut buf: Vec<u8> = Vec::new();
        Tag::CompoundTag(outer).write(&mut buf).unwrap();
        for cut in 1..buf.len() {
            assert_eq!(Tag::read(&buf[..cut]), Err(TagError::IoError));
        }
    }
}

#[test]
fn any_bytes_are_read_without_a_crash() {
    let mut numbers = Numbers(5);
    for _ in 0..2000 {
        let bytes: Vec<u8> = (0..numbers.below(40))
            .map(|_| if numbers.below(3) == 0 { numbers.below(13) as u8 } else { numbers.below(4) as u8 })
            .collect();
        match Tag::read(&bytes) {
            Ok(tree) => {
                let mut buf: Vec<u8> = Vec::new();
                if tree.write(&mut buf).is_ok() {
                    assert_eq!(Tag::read(&buf), Ok(tree));
                }
            }
            Err(TagError::InvalidUtf8(raw)) => assert!(String::from_utf8(raw).is_err()),
            Err(_) => {}
        }
    }
}
