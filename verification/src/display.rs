//! The text of a tag tree: nested, separated by commas, in brackets and
//! braces. Reals are not printed here: the text comes in pieces, and a real
//! is a piece of its own that holds its bits.

use crate::model::TagView;
use crate::tag::{list_view_each, Tag};
use crate::text::text_of;
use vstd::prelude::*;
use vstd::utf8::{
    encode_utf8, encode_utf8_decode_utf8, encode_utf8_valid_utf8, is_ascii_chars,
    is_ascii_chars_encode_utf8,
};

verus! {

/// One piece of the text of a tag tree.
#[derive(Debug, PartialEq, Eq)]
pub enum Piece {
    /// Text as it stands.
    Text(String),
    /// A binary32 real, by its bits; whoever prints the text prints the real.
    Float(u32),
    /// A binary64 real, by its bits; whoever prints the text prints the real.
    Double(u64),
}

/// What a piece is.
pub enum PieceView {
    Text(Seq<char>),
    Float(u32),
    Double(u64),
}

impl View for Piece {
    type V = PieceView;

    open spec fn view(&self) -> PieceView {
        match self {
            Piece::Text(text) => PieceView::Text(text@),
            Piece::Float(bits) => PieceView::Float(*bits),
            Piece::Double(bits) => PieceView::Double(*bits),
        }
    }
}

/// What the pieces are, one by one.
pub open spec fn pieces_view(pieces: Seq<Piece>) -> Seq<PieceView> {
    pieces.map_values(|piece: Piece| piece@)
}

/// What each of several runs of pieces is.
pub open spec fn runs_view(runs: Seq<Vec<Piece>>) -> Seq<Seq<PieceView>> {
    runs.map_values(|run: Vec<Piece>| pieces_view(run@))
}

/// The characters that ASCII bytes stand for.
pub open spec fn ascii(bytes: Seq<u8>) -> Seq<char> {
    Seq::new(bytes.len(), |i: int| bytes[i] as char)
}

/// The character of a decimal digit.
pub open spec fn digit(d: nat) -> char {
    ((48 + d) as u8) as char
}

/// The decimal digits of a number, without leading zeros.
pub open spec fn digits(n: nat) -> Seq<char>
    decreases n,
{
    if n < 10 {
        seq![digit(n)]
    } else {
        digits(n / 10).push(digit(n % 10))
    }
}

/// A number in decimal, with a minus sign before a negative one.
pub open spec fn decimal(n: int) -> Seq<char> {
    if n < 0 {
        seq!['-'] + digits((-n) as nat)
    } else {
        digits(n as nat)
    }
}

/// A piece of text.
pub open spec fn text(chars: Seq<char>) -> Seq<PieceView> {
    seq![PieceView::Text(chars)]
}

/// What stands before the item at place `at` of a list or a compound:
/// nothing before the first, a comma and a space before the others.
pub open spec fn separator(at: nat) -> Seq<PieceView> {
    if at == 0 {
        Seq::empty()
    } else {
        text(", "@)
    }
}

/// The runs from place `from` on, each after its separator.
pub open spec fn joined(runs: Seq<Seq<PieceView>>, from: nat) -> Seq<PieceView>
    decreases runs.len() - from,
{
    if from >= runs.len() {
        Seq::empty()
    } else {
        separator(from) + runs[from as int] + joined(runs, from + 1)
    }
}

/// A list: its items in square brackets, separated by a comma and a space.
pub open spec fn list_text(runs: Seq<Seq<PieceView>>) -> Seq<PieceView> {
    text("["@) + joined(runs, 0) + text("]"@)
}

/// The numbers of an array, each as a run of one piece in decimal.
pub open spec fn number_runs(numbers: Seq<int>) -> Seq<Seq<PieceView>> {
    numbers.map_values(|n: int| text(decimal(n)))
}

/// The text of a tag tree. A scalar is its value in decimal, a real a piece
/// of its own, a string its characters as they are; an array or a list is
/// `[a, b, c]`, a compound `{k: v, k: v}`.
pub open spec fn tag_text(value: TagView) -> Seq<PieceView>
    decreases value, 0nat,
{
    match value {
        TagView::Byte(n) => text(decimal(n as int)),
        TagView::Short(n) => text(decimal(n as int)),
        TagView::Int(n) => text(decimal(n as int)),
        TagView::Long(n) => text(decimal(n as int)),
        TagView::Float(bits) => seq![PieceView::Float(bits)],
        TagView::Double(bits) => seq![PieceView::Double(bits)],
        TagView::ByteArray(items) => list_text(number_runs(items.map_values(|n: i8| n as int))),
        TagView::Text(chars) => text(chars),
        TagView::List(items) => text("["@) + items_text(items, 0) + text("]"@),
        TagView::Compound(entries) => text("{"@) + entries_text(entries, 0) + text("}"@),
        TagView::IntArray(items) => list_text(number_runs(items.map_values(|n: i32| n as int))),
        TagView::LongArray(items) => list_text(number_runs(items.map_values(|n: i64| n as int))),
    }
}

/// The texts of the items of a list from place `from` on, each after its
/// separator.
pub open spec fn items_text(items: Seq<TagView>, from: nat) -> Seq<PieceView>
    decreases items, items.len() - from,
{
    if from >= items.len() {
        Seq::empty()
    } else {
        separator(from) + tag_text(items[from as int]) + items_text(items, from + 1)
    }
}

/// The texts of the entries of a compound from place `from` on, each after
/// its separator: the name, a colon and a space, the text of the value.
pub open spec fn entries_text(entries: Seq<(Seq<char>, TagView)>, from: nat) -> Seq<PieceView>
    decreases entries, entries.len() - from,
{
    if from >= entries.len() {
        Seq::empty()
    } else {
        separator(from) + text(entries[from as int].0) + text(": "@) + tag_text(
            entries[from as int].1,
        ) + entries_text(entries, from + 1)
    }
}

/// The text of a list of tags is the list of the texts of its items.
pub proof fn list_text_of_items(items: Seq<TagView>)
    ensures
        tag_text(TagView::List(items)) == list_text(items.map_values(|item: TagView| tag_text(item))),
{
    let runs = items.map_values(|item: TagView| tag_text(item));
    items_text_joined(items, runs, 0);
}

/// `items_text` joins the texts of the items.
proof fn items_text_joined(items: Seq<TagView>, runs: Seq<Seq<PieceView>>, from: nat)
    requires
        runs == items.map_values(|item: TagView| tag_text(item)),
    ensures
        items_text(items, from) == joined(runs, from),
    decreases items.len() - from,
{
    if from < items.len() {
        items_text_joined(items, runs, from + 1);
    }
}

/// The string whose characters are these ASCII bytes.
pub fn ascii_text(bytes: &[u8]) -> (text: String)
    requires
        forall|i: int| 0 <= i < bytes@.len() ==> bytes@[i] < 128,
    ensures
        text@ == ascii(bytes@),
{
    proof {
        let chars = ascii(bytes@);
        assert(is_ascii_chars(chars));
        is_ascii_chars_encode_utf8(chars);
        assert(encode_utf8(chars) =~= bytes@);
        encode_utf8_valid_utf8(chars);
        encode_utf8_decode_utf8(chars);
    }
    match text_of(bytes) {
        Some(text) => text,
        None => String::new(),
    }
}

/// The digits that are still to come before those written: none for 0.
spec fn leading(m: nat) -> Seq<char> {
    if m == 0 {
        Seq::empty()
    } else {
        digits(m)
    }
}

/// A number in decimal.
#[verifier::loop_isolation(false)]
pub fn decimal_text(n: i64) -> (text: String)
    ensures
        text@ == decimal(n as int),
{
    let magnitude: u64 = if n < 0 {
        ((-(n + 1)) as u64) + 1
    } else {
        n as u64
    };
    let mut low_first: Vec<u8> = Vec::new();
    let mut m: u64 = magnitude;
    low_first.push(48 + (m % 10) as u8);
    m = m / 10;
    assert(digits(magnitude as nat) =~= leading(m as nat) + ascii(low_first@.reverse()));
    while m > 0
        invariant
            low_first@.len() > 0,
            forall|i: int| 0 <= i < low_first@.len() ==> 48 <= #[trigger] low_first@[i] <= 57,
            digits(magnitude as nat) == leading(m as nat) + ascii(low_first@.reverse()),
        decreases m,
    {
        let ghost before = low_first@;
        let d: u8 = (m % 10) as u8;
        low_first.push(48 + d);
        assert(ascii(low_first@.reverse()) =~= seq![digit(d as nat)] + ascii(before.reverse()));
        assert(leading(m as nat) =~= leading((m / 10) as nat).push(digit(d as nat)));
        m = m / 10;
        assert(digits(magnitude as nat) =~= leading(m as nat) + ascii(low_first@.reverse()));
    }
    let mut out: Vec<u8> = Vec::new();
    if n < 0 {
        out.push(45);
    }
    let ghost sign = out@;
    let mut k: usize = low_first.len();
    while k > 0
        invariant
            k <= low_first@.len(),
            out@ == sign + low_first@.reverse().subrange(0, low_first@.len() - k),
            forall|i: int| 0 <= i < out@.len() ==> #[trigger] out@[i] < 128,
        decreases k,
    {
        k -= 1;
        out.push(low_first[k]);
        assert(out@ =~= sign + low_first@.reverse().subrange(0, low_first@.len() - k));
    }
    assert(out@ =~= sign + low_first@.reverse());
    assert(ascii(out@) =~= ascii(sign) + ascii(low_first@.reverse()));
    assert(ascii(out@) =~= decimal(n as int));
    ascii_text(out.as_slice())
}

/// A piece of text.
pub fn text_piece(chars: &str) -> (piece: Piece)
    ensures
        piece@ == PieceView::Text(chars@),
{
    Piece::Text(chars.to_owned())
}

/// A piece like the given one.
pub fn same_piece(piece: &Piece) -> (same: Piece)
    ensures
        same@ == piece@,
{
    match piece {
        Piece::Text(chars) => Piece::Text(chars.clone()),
        Piece::Float(bits) => Piece::Float(*bits),
        Piece::Double(bits) => Piece::Double(*bits),
    }
}

/// Puts the separator for the item at place `at` at the end of `f`.
fn put_separator(at: usize, f: &mut Vec<Piece>)
    ensures
        pieces_view(final(f)@) == pieces_view(old(f)@) + separator(at as nat),
{
    if at != 0 {
        f.push(text_piece(", "));
    }
    assert(pieces_view(f@) =~= pieces_view(old(f)@) + separator(at as nat));
}

/// Puts a piece of text at the end of `f`.
fn put_text(chars: &str, f: &mut Vec<Piece>)
    ensures
        pieces_view(final(f)@) == pieces_view(old(f)@) + text(chars@),
{
    f.push(text_piece(chars));
    assert(pieces_view(f@) =~= pieces_view(old(f)@) + text(chars@));
}

/// Puts a list at the end of `f`: the runs of its items in square brackets,
/// separated by a comma and a space.
#[verifier::loop_isolation(false)]
pub fn list_fmt(value: &Vec<Vec<Piece>>, f: &mut Vec<Piece>)
    ensures
        pieces_view(final(f)@) == pieces_view(old(f)@) + list_text(runs_view(value@)),
{
    let ghost runs = runs_view(value@);
    put_text("[", f);
    let ghost start = pieces_view(f@);
    let mut i: usize = 0;
    while i < value.len()
        invariant
            i <= value.len(),
            pieces_view(f@) + joined(runs, i as nat) == start + joined(runs, 0),
        decreases value.len() - i,
    {
        let ghost before = pieces_view(f@);
        put_separator(i, f);
        let run = &value[i];
        let ghost at_run = pieces_view(f@);
        let mut j: usize = 0;
        while j < run.len()
            invariant
                j <= run.len(),
                pieces_view(f@) == at_run + pieces_view(run@).subrange(0, j as int),
            decreases run.len() - j,
        {
            let ghost held = f@;
            f.push(same_piece(&run[j]));
            assert(pieces_view(f@) =~= pieces_view(held).push(run@[j as int]@));
            assert(pieces_view(run@).subrange(0, j + 1) =~= pieces_view(run@).subrange(
                0,
                j as int,
            ).push(run@[j as int]@));
            assert(pieces_view(f@) =~= at_run + pieces_view(run@).subrange(0, j + 1));
            j += 1;
        }
        assert(pieces_view(run@).subrange(0, j as int) =~= runs[i as int]);
        assert(pieces_view(f@) + joined(runs, (i + 1) as nat) =~= before + joined(runs, i as nat));
        i += 1;
    }
    put_text("]", f);
    assert(pieces_view(f@) =~= pieces_view(old(f)@) + list_text(runs));
}

/// The runs of the numbers of an array, each of one piece in decimal.
fn run_of_number(n: i64) -> (run: Vec<Piece>)
    ensures
        pieces_view(run@) == text(decimal(n as int)),
{
    let mut run: Vec<Piece> = Vec::new();
    run.push(Piece::Text(decimal_text(n)));
    assert(pieces_view(run@) =~= text(decimal(n as int)));
    run
}

impl Tag {
    /// Puts the text of the tree at the end of `f`: a scalar in decimal, a
    /// real as a piece of its own, a string as it is, an array or a list as
    /// `[a, b, c]`, a compound as `{k: v, k: v}`. Nothing is escaped.
    #[verifier::loop_isolation(false)]
    pub fn fmt(&self, f: &mut Vec<Piece>)
        ensures
            pieces_view(final(f)@) == pieces_view(old(f)@) + tag_text(self@),
        decreases self,
    {
        match self {
            Tag::ByteTag(value) => {
                f.push(Piece::Text(decimal_text(*value as i64)));
                assert(pieces_view(f@) =~= pieces_view(old(f)@) + tag_text(self@));
            },
            Tag::ShortTag(value) => {
                f.push(Piece::Text(decimal_text(*value as i64)));
                assert(pieces_view(f@) =~= pieces_view(old(f)@) + tag_text(self@));
            },
            Tag::IntTag(value) => {
                f.push(Piece::Text(decimal_text(*value as i64)));
                assert(pieces_view(f@) =~= pieces_view(old(f)@) + tag_text(self@));
            },
            Tag::LongTag(value) => {
                f.push(Piece::Text(decimal_text(*value)));
                assert(pieces_view(f@) =~= pieces_view(old(f)@) + tag_text(self@));
            },
            Tag::FloatTag(value) => {
                f.push(Piece::Float(*value));
                assert(pieces_view(f@) =~= pieces_view(old(f)@) + tag_text(self@));
            },
            Tag::DoubleTag(value) => {
                f.push(Piece::Double(*value));
                assert(pieces_view(f@) =~= pieces_view(old(f)@) + tag_text(self@));
            },
            Tag::ByteArray(value) => {
                let mut runs: Vec<Vec<Piece>> = Vec::new();
                let mut i: usize = 0;
                while i < value.len()
                    invariant
                        i <= value.len(),
                        runs_view(runs@) == number_runs(
                            value@.map_values(|n: i8| n as int),
                        ).subrange(0, i as int),
                    decreases value.len() - i,
                {
                    runs.push(run_of_number(value[i] as i64));
                    assert(runs_view(runs@) =~= number_runs(
                        value@.map_values(|n: i8| n as int),
                    ).subrange(0, i + 1));
                    i += 1;
                }
                assert(runs_view(runs@) =~= number_runs(value@.map_values(|n: i8| n as int)));
                list_fmt(&runs, f);
            },
            Tag::StringTag(value) => put_text(value.as_str(), f),
            Tag::ListTag(value) => {
                proof {
                    list_view_each(*value);
                }
                let ghost items = self@->List_0;
                put_text("[", f);
                let ghost start = pieces_view(f@);
                let mut i: usize = 0;
                while i < value.len()
                    invariant
                        i <= value.len(),
                        pieces_view(f@) + items_text(items, i as nat) == start + items_text(items, 0),
                    decreases value.len() - i,
                {
                    let ghost before = pieces_view(f@);
                    proof {
                        vstd::std_specs::vec::axiom_vec_index_decreases(*value, i as int);
                    }
                    put_separator(i, f);
                    value[i].fmt(f);
                    assert(pieces_view(f@) + items_text(items, (i + 1) as nat) =~= before
                        + items_text(items, i as nat));
                    i += 1;
                }
                put_text("]", f);
                assert(pieces_view(f@) =~= pieces_view(old(f)@) + tag_text(self@));
            },
            Tag::CompoundTag(value) => {
                proof {
                    value.view_of_tag();
                }
                let ghost entries = self@->Compound_0;
                put_text("{", f);
                let ghost start = pieces_view(f@);
                let mut i: usize = 0;
                while i < value.len()
                    invariant
                        i <= value@.len(),
                        pieces_view(f@) + entries_text(entries, i as nat) == start + entries_text(
                            entries,
                            0,
                        ),
                    decreases value@.len() - i,
                {
                    let ghost before = pieces_view(f@);
                    put_separator(i, f);
                    put_text(value.key_at(i).as_str(), f);
                    put_text(": ", f);
                    value.value_at(i).fmt(f);
                    assert(pieces_view(f@) + entries_text(entries, (i + 1) as nat) =~= before
                        + entries_text(entries, i as nat));
                    i += 1;
                }
                put_text("}", f);
                assert(pieces_view(f@) =~= pieces_view(old(f)@) + tag_text(self@));
            },
            Tag::IntArray(value) => {
                let mut runs: Vec<Vec<Piece>> = Vec::new();
                let mut i: usize = 0;
                while i < value.len()
                    invariant
                        i <= value.len(),
                        runs_view(runs@) == number_runs(
                            value@.map_values(|n: i32| n as int),
                        ).subrange(0, i as int),
                    decreases value.len() - i,
                {
                    runs.push(run_of_number(value[i] as i64));
                    assert(runs_view(runs@) =~= number_runs(
                        value@.map_values(|n: i32| n as int),
                    ).subrange(0, i + 1));
                    i += 1;
                }
                assert(runs_view(runs@) =~= number_runs(value@.map_values(|n: i32| n as int)));
                list_fmt(&runs, f);
            },
            Tag::LongArray(value) => {
                let mut runs: Vec<Vec<Piece>> = Vec::new();
                let mut i: usize = 0;
                while i < value.len()
                    invariant
                        i <= value.len(),
                        runs_view(runs@) == number_runs(
                            value@.map_values(|n: i64| n as int),
                        ).subrange(0, i as int),
                    decreases value.len() - i,
                {
                    runs.push(run_of_number(value[i]));
                    assert(runs_view(runs@) =~= number_runs(
                        value@.map_values(|n: i64| n as int),
                    ).subrange(0, i + 1));
                    i += 1;
                }
                assert(runs_view(runs@) =~= number_runs(value@.map_values(|n: i64| n as int)));
                list_fmt(&runs, f);
            },
        }
    }
}

} // verus!
