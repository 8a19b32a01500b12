use nbt_codec::display::{ascii_text, decimal_text, list_fmt, same_piece, text_piece, Piece};
use nbt_codec::tag::{Compound, Tag};

fn compound(entries: Vec<(&str, Tag)>) -> Tag {
    let mut found = Compound::new();
    for (name, tag) in entries {
        found.insert(name.to_string(), tag);
    }
    Tag::CompoundTag(found)
}

fn pieces(tag: &Tag) -> Vec<Piece> {
    let mut f: Vec<Piece> = Vec::new();
    tag.fmt(&mut f);
    f
}

/// The text as a reader sees it, with the reals printed.
fn shown(tag: &Tag) -> String {
    let mut out = String::new();
    for piece in pieces(tag) {
        match piece {
            Piece::Text(text) => out.push_str(&text),
            Piece::Float(bits) => out.push_str(&format!("{}", f32::from_bits(bits))),
            Piece::Double(bits) => out.push_str(&format!("{}", f64::from_bits(bits))),
        }
    }
    out
}

fn t(chars: &str) -> Piece {
    Piece::Text(chars.to_string())
}

#[test]
fn numbers_are_written_in_decimal() {
    assert_eq!(decimal_text(0), "0");
    assert_eq!(decimal_text(7), "7");
    assert_eq!(decimal_text(10), "10");
    assert_eq!(decimal_text(-1), "-1");
    assert_eq!(decimal_text(-10), "-10");
    assert_eq!(decimal_text(1234567890), "1234567890");
    assert_eq!(decimal_text(i64::MAX), "9223372036854775807");
    assert_eq!(decimal_text(i64::MIN), "-9223372036854775808");
}

#[test]
fn decimal_agrees_with_the_standard_library() {
    for n in [-1000i64, -999, -101, -100, -99, -11, -9, 9, 11, 99, 100, 101, 999, 1000, 65535] {
        assert_eq!(decimal_text(n), format!("{}", n));
    }
}

#[test]
fn ascii_bytes_become_their_characters() {
    assert_eq!(ascii_text(b"-12 ab~"), "-12 ab~");
    assert_eq!(ascii_text(b""), "");
}

#[test]
fn pieces_are_made_and_copied() {
    assert_eq!(text_piece(", "), t(", "));
    assert_eq!(same_piece(&t("x")), t("x"));
    assert_eq!(same_piece(&Piece::Float(3)), Piece::Float(3));
    assert_eq!(same_piece(&Piece::Double(4)), Piece::Double(4));
}

#[test]
fn list_is_in_brackets_with_commas() {
    let mut f: Vec<Piece> = vec![t("before")];
    list_fmt(&vec![vec![t("a")], vec![t("b"), Piece::Float(1)], vec![]], &mut f);
    assert_eq!(
        f,
        vec![t("before"), t("["), t("a"), t(", "), t("b"), Piece::Float(1), t(", "), t("]")]
    );
}

#[test]
fn empty_list_is_two_brackets() {
    let mut f: Vec<Piece> = Vec::new();
    list_fmt(&vec![], &mut f);
    assert_eq!(f, vec![t("["), t("]")]);
    assert_eq!(shown(&Tag::ListTag(vec![])), "[]");
    assert_eq!(shown(&Tag::IntArray(vec![])), "[]");
}

#[test]
fn scalars_are_bare() {
    assert_eq!(pieces(&Tag::ByteTag(-5)), vec![t("-5")]);
    assert_eq!(pieces(&Tag::ShortTag(300)), vec![t("300")]);
    assert_eq!(pieces(&Tag::IntTag(-70000)), vec![t("-70000")]);
    assert_eq!(pieces(&Tag::LongTag(1 << 40)), vec![t("1099511627776")]);
    assert_eq!(pieces(&Tag::StringTag("a, b}".to_string())), vec![t("a, b}")]);
}

#[test]
fn reals_are_pieces_of_their_own() {
    assert_eq!(pieces(&Tag::FloatTag(1.5f32.to_bits())), vec![Piece::Float(0x3fc0_0000)]);
    assert_eq!(
        pieces(&Tag::DoubleTag(1.5f64.to_bits())),
        vec![Piece::Double(0x3ff8_0000_0000_0000)]
    );
    assert_eq!(shown(&Tag::FloatTag(1.5f32.to_bits())), "1.5");
    assert_eq!(shown(&Tag::DoubleTag((-0.25f64).to_bits())), "-0.25");
}

#[test]
fn arrays_are_lists_of_numbers() {
    assert_eq!(
        pieces(&Tag::ByteArray(vec![1, -2])),
        vec![t("["), t("1"), t(", "), t("-2"), t("]")]
    );
    assert_eq!(shown(&Tag::ByteArray(vec![1, -2, 3])), "[1, -2, 3]");
    assert_eq!(shown(&Tag::IntArray(vec![i32::MIN])), "[-2147483648]");
    assert_eq!(shown(&Tag::LongArray(vec![0, i64::MAX])), "[0, 9223372036854775807]");
}

#[test]
fn list_of_tags_is_a_list_of_their_texts() {
    assert_eq!(
        pieces(&Tag::ListTag(vec![Tag::FloatTag(0), Tag::FloatTag(1)])),
        vec![t("["), Piece::Float(0), t(", "), Piece::Float(1), t("]")]
    );
    assert_eq!(
        shown(&Tag::ListTag(vec![
            Tag::ListTag(vec![Tag::ByteTag(1), Tag::ByteTag(2)]),
            Tag::ListTag(vec![]),
        ])),
        "[[1, 2], []]"
    );
}

#[test]
fn compound_is_in_braces_with_names() {
    let tree = compound(vec![
        ("hp", Tag::IntTag(20)),
        ("name", Tag::StringTag("Steve".to_string())),
    ]);
    assert_eq!(
        pieces(&tree),
        vec![
            t("{"),
            t("hp"),
            t(": "),
            t("20"),
            t(", "),
            t("name"),
            t(": "),
            t("Steve"),
            t("}"),
        ]
    );
    assert_eq!(shown(&tree), "{hp: 20, name: Steve}");
    assert_eq!(shown(&compound(vec![])), "{}");
}

#[test]
fn nested_tree_is_shown_whole() {
    let tree = compound(vec![
        ("pos", Tag::ListTag(vec![Tag::DoubleTag(1.5f64.to_bits()), Tag::DoubleTag(64f64.to_bits())])),
        ("inv", Tag::ListTag(vec![compound(vec![("id", Tag::ShortTag(3))])])),
        ("seed", Tag::LongArray(vec![-1, 1])),
    ]);
    assert_eq!(shown(&tree), "{pos: [1.5, 64], inv: [{id: 3}], seed: [-1, 1]}");
}

#[test]
fn text_goes_to_the_end_of_what_is_there() {
    let mut f: Vec<Piece> = vec![t("x")];
    Tag::ByteTag(1).fmt(&mut f);
    Tag::ByteTag(2).fmt(&mut f);
    assert_eq!(f, vec![t("x"), t("1"), t("2")]);
}
