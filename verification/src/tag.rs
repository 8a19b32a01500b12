//! The tag tree and the errors of its codec.

use crate::model::{
    distinct_keys, entry_leaves, entry_leaves_grows, has_key, key_index, key_index_first,
    key_index_found, leaves_of, leaves_of_grows, with_entry, TagView,
};
use vstd::prelude::*;
use vstd::string::StringSliceAdditionalSpecFns;

verus! {

/// Why reading or writing a tag tree failed.
#[derive(Debug, Clone, PartialEq, Eq)]
pub enum TagError {
    /// A type byte that names no kind, or a kind that may not stand where it does.
    InvalidType,
    /// The bytes of a string are not UTF-8; they are handed back.
    InvalidUtf8(Vec<u8>),
    /// The bytes end too early, or a length does not fit its field.
    IoError,
}

/// One node of a tag tree.
#[derive(Debug, PartialEq)]
pub enum Tag {
    ByteTag(i8),
    ShortTag(i16),
    IntTag(i32),
    LongTag(i64),
    /// A binary32 real, held by its bits.
    FloatTag(u32),
    /// A binary64 real, held by its bits.
    DoubleTag(u64),
    ByteArray(Vec<i8>),
    StringTag(String),
    ListTag(Vec<Tag>),
    CompoundTag(Compound),
    IntArray(Vec<i32>),
    LongArray(Vec<i64>),
}

/// A mapping from names to tags that keeps its entries in the order in which
/// the names were first put in. No name occurs twice.
#[derive(Debug, PartialEq)]
pub struct Compound {
    entries: Vec<(String, Tag)>,
}

impl View for Tag {
    type V = TagView;

    open spec fn view(&self) -> TagView {
        tag_view(*self)
    }
}

impl View for Compound {
    type V = Seq<(Seq<char>, TagView)>;

    closed spec fn view(&self) -> Seq<(Seq<char>, TagView)> {
        entry_views_of(self.entries, self.entries@.len())
    }
}

/// The value of a tag.
pub open spec fn tag_view(tag: Tag) -> TagView
    decreases tag,
{
    match tag {
        Tag::ByteTag(v) => TagView::Byte(v),
        Tag::ShortTag(v) => TagView::Short(v),
        Tag::IntTag(v) => TagView::Int(v),
        Tag::LongTag(v) => TagView::Long(v),
        Tag::FloatTag(v) => TagView::Float(v),
        Tag::DoubleTag(v) => TagView::Double(v),
        Tag::ByteArray(v) => TagView::ByteArray(v@),
        Tag::StringTag(v) => TagView::Text(v@),
        Tag::ListTag(v) => TagView::List(views_of(v, v@.len())),
        Tag::CompoundTag(v) => TagView::Compound(compound_view(v)),
        Tag::IntArray(v) => TagView::IntArray(v@),
        Tag::LongArray(v) => TagView::LongArray(v@),
    }
}

/// The entries of a compound, each with its name and its value.
pub closed spec fn compound_view(compound: Compound) -> Seq<(Seq<char>, TagView)>
    decreases compound,
{
    entry_views_of(compound.entries, compound.entries@.len())
}

/// The values of the first `n` of `items`.
pub open spec fn views_of(items: Vec<Tag>, n: nat) -> Seq<TagView>
    decreases items, n,
{
    if n == 0 || n > items@.len() {
        Seq::empty()
    } else {
        views_of(items, (n - 1) as nat).push(tag_view(items@[n - 1]))
    }
}

/// The values of the first `n` of `entries`, each with its name.
pub open spec fn entry_views_of(entries: Vec<(String, Tag)>, n: nat) -> Seq<(Seq<char>, TagView)>
    decreases entries, n,
{
    if n == 0 || n > entries@.len() {
        Seq::empty()
    } else {
        entry_views_of(entries, (n - 1) as nat).push((entries@[n - 1].0@, tag_view(entries@[n - 1].1)))
    }
}

/// `views_of` takes the value of each item, place by place.
pub proof fn views_of_each(items: Vec<Tag>, n: nat)
    requires
        n <= items@.len(),
    ensures
        views_of(items, n).len() == n,
        forall|i: int| 0 <= i < n ==> #[trigger] views_of(items, n)[i] == items@[i]@,
    decreases n,
{
    if n > 0 {
        views_of_each(items, (n - 1) as nat);
    }
}

/// `entry_views_of` takes name and value of each entry, place by place.
pub proof fn entry_views_of_each(entries: Vec<(String, Tag)>, n: nat)
    requires
        n <= entries@.len(),
    ensures
        entry_views_of(entries, n).len() == n,
        forall|i: int|
            0 <= i < n ==> #[trigger] entry_views_of(entries, n)[i] == (
                entries@[i].0@,
                entries@[i].1@,
            ),
    decreases n,
{
    if n > 0 {
        entry_views_of_each(entries, (n - 1) as nat);
    }
}

/// What the value of a list is: the values of its items, place by place.
pub proof fn list_view_each(items: Vec<Tag>)
    ensures
        Tag::ListTag(items)@ is List,
        Tag::ListTag(items)@->List_0.len() == items@.len(),
        forall|i: int|
            0 <= i < items@.len() ==> #[trigger] Tag::ListTag(items)@->List_0[i] == items@[i]@,
{
    views_of_each(items, items@.len());
}

impl Compound {
    /// The value of the tag that holds this compound.
    pub proof fn view_of_tag(self)
        ensures
            Tag::CompoundTag(self)@ == TagView::Compound(self@),
    {
    }

    /// What the view is: name and value of each entry, place by place.
    proof fn view_each(self)
        ensures
            self@.len() == self.entries@.len(),
            forall|i: int|
                0 <= i < self.entries@.len() ==> #[trigger] self@[i] == (
                    self.entries@[i].0@,
                    self.entries@[i].1@,
                ),
            Tag::CompoundTag(self)@ == TagView::Compound(self@),
    {
        entry_views_of_each(self.entries, self.entries@.len());
    }

    /// No two entries have the same name.
    #[verifier::type_invariant]
    spec fn distinct(self) -> bool {
        forall|i: int, j: int|
            0 <= i < j < self.entries@.len() ==> (#[trigger] self.entries@[i]).0@ != (
            #[trigger] self.entries@[j]).0@
    }

    /// A compound without entries.
    pub fn new() -> (c: Compound)
        ensures
            c@ == Seq::<(Seq<char>, TagView)>::empty(),
    {
        Compound { entries: Vec::new() }
    }

    /// The number of entries.
    pub fn len(&self) -> (n: usize)
        ensures
            n == self@.len(),
    {
        proof {
            self.view_each();
        }
        self.entries.len()
    }

    /// Whether there is no entry.
    pub fn is_empty(&self) -> (b: bool)
        ensures
            b == (self@.len() == 0),
    {
        proof {
            self.view_each();
        }
        self.entries.len() == 0
    }

    /// The names are distinct: what the type keeps, as a fact about the view.
    pub fn keys_are_distinct(&self)
        ensures
            distinct_keys(self@),
    {
        proof {
            use_type_invariant(self);
            self.view_each();
        }
    }

    /// The name of the entry at place `at`.
    pub fn key_at(&self, at: usize) -> (key: &String)
        requires
            at < self@.len(),
        ensures
            key@ == self@[at as int].0,
    {
        proof {
            self.view_each();
        }
        &self.entries[at].0
    }

    /// The tag of the entry at place `at`.
    pub fn value_at(&self, at: usize) -> (value: &Tag)
        requires
            at < self@.len(),
        ensures
            value@ == self@[at as int].1,
            decreases_to!(*self => *value),
    {
        proof {
            self.view_each();
        }
        &self.entries[at].1
    }

    /// The place of the entry named `key`.
    #[verifier::loop_isolation(false)]
    pub fn position(&self, key: &str) -> (at: Option<usize>)
        ensures
            at is Some <==> has_key(self@, key@),
            at matches Some(i) ==> i == key_index(self@, key@) && i < self@.len(),
    {
        proof {
            self.view_each();
        }
        let mut i: usize = 0;
        while i < self.entries.len()
            invariant
                i <= self.entries.len(),
                forall|j: int| 0 <= j < i ==> (#[trigger] self@[j]).0 != key@,
            decreases self.entries.len() - i,
        {
            if same_text(self.entries[i].0.as_str(), key) {
                proof {
                    key_index_first(self@, key@, i as int);
                }
                return Some(i);
            }
            i += 1;
        }
        proof {
            key_index_first(self@, key@, i as int);
        }
        None
    }

    /// Whether an entry is named `key`.
    pub fn contains_key(&self, key: &str) -> (b: bool)
        ensures
            b == has_key(self@, key@),
    {
        self.position(key).is_some()
    }

    /// The tag named `key`.
    pub fn get(&self, key: &str) -> (value: Option<&Tag>)
        ensures
            value is Some <==> has_key(self@, key@),
            value matches Some(t) ==> t@ == self@[key_index(self@, key@)].1,
    {
        proof {
            self.view_each();
        }
        match self.position(key) {
            Some(i) => Some(&self.entries[i].1),
            None => None,
        }
    }

    /// Gives `key` the tag `value`. A name that is there keeps its place, and
    /// its earlier tag is returned; a new name goes to the end.
    pub fn insert(&mut self, key: String, value: Tag) -> (previous: Option<Tag>)
        ensures
            final(self)@ == with_entry(old(self)@, key@, value@),
            previous is Some <==> has_key(old(self)@, key@),
            previous matches Some(t) ==> t@ == old(self)@[key_index(old(self)@, key@)].1,
    {
        proof {
            use_type_invariant(&*self);
            self.view_each();
        }
        let at = self.position(key.as_str());
        let ghost before = self@;
        let ghost held = self.entries@;
        proof {
            key_index_found(before, key@);
        }
        let mut entries: Vec<(String, Tag)> = Vec::new();
        std::mem::swap(&mut self.entries, &mut entries);
        let previous = match at {
            Some(i) => {
                let (_, earlier) = entries.remove(i);
                entries.insert(i, (key, value));
                assert(entries@ =~= held.update(i as int, (key, value)));
                assert(held[i as int].0@ == before[i as int].0);
                Some(earlier)
            },
            None => {
                entries.push((key, value));
                assert(entries@ =~= held.push((key, value)));
                None
            },
        };
        assert forall|a: int, b: int| 0 <= a < b < entries@.len() implies (#[trigger] entries@[a]).0@
            != (#[trigger] entries@[b]).0@ by {
            if a < held.len() {
                assert(held[a].0@ == before[a].0);
            }
            if b < held.len() {
                assert(held[b].0@ == before[b].0);
            }
        }
        std::mem::swap(&mut self.entries, &mut entries);
        proof {
            self.view_each();
            let after = with_entry(before, key@, value@);
            assert(self@.len() == after.len());
            assert forall|j: int| 0 <= j < after.len() implies self@[j] == after[j] by {
                if j < held.len() {
                    assert(before[j] == (held[j].0@, held[j].1@));
                }
            }
        }
        assert(self@ =~= with_entry(before, key@, value@));
        previous
    }
}

impl Compound {
    /// Takes the entry named `key` out, and gives its tag; the entries after
    /// it move up by one place.
    pub fn remove(&mut self, key: &str) -> (taken: Option<Tag>)
        ensures
            taken is Some <==> has_key(old(self)@, key@),
            taken matches Some(t) ==> t@ == old(self)@[key_index(old(self)@, key@)].1,
            taken is Some ==> final(self)@ == old(self)@.remove(key_index(old(self)@, key@)),
            taken is None ==> final(self)@ == old(self)@,
    {
        proof {
            use_type_invariant(&*self);
            self.view_each();
        }
        let at = self.position(key);
        let ghost before = self@;
        let ghost held = self.entries@;
        match at {
            None => None,
            Some(i) => {
                let mut entries: Vec<(String, Tag)> = Vec::new();
                std::mem::swap(&mut self.entries, &mut entries);
                let (_, taken) = entries.remove(i);
                assert(entries@ =~= held.remove(i as int));
                assert forall|a: int, b: int| 0 <= a < b < entries@.len() implies (
                #[trigger] entries@[a]).0@ != (#[trigger] entries@[b]).0@ by {
                    let from_a = if a < i { a } else { a + 1 };
                    let from_b = if b < i { b } else { b + 1 };
                    assert(entries@[a] == held[from_a]);
                    assert(entries@[b] == held[from_b]);
                }
                std::mem::swap(&mut self.entries, &mut entries);
                proof {
                    self.view_each();
                    assert(self@ =~= before.remove(i as int));
                }
                Some(taken)
            },
        }
    }
}

/// Whether two strings hold the same text.
pub fn same_text(a: &str, b: &str) -> (same: bool)
    ensures
        same == (a@ == b@),
{
    let x = a.as_bytes();
    let y = b.as_bytes();
    proof {
        vstd::utf8::encode_utf8_decode_utf8(a@);
        vstd::utf8::encode_utf8_decode_utf8(b@);
    }
    if x.len() != y.len() {
        return false;
    }
    let mut i: usize = 0;
    while i < x.len()
        invariant
            i <= x.len(),
            x.len() == y.len(),
            x@ == a.spec_bytes(),
            y@ == b.spec_bytes(),
            forall|j: int| 0 <= j < i ==> x@[j] == y@[j],
        decreases x.len() - i,
    {
        if x[i] != y[i] {
            assert(a@ == b@ ==> x@[i as int] == y@[i as int]);
            return false;
        }
        i += 1;
    }
    assert(x@ =~= y@);
    true
}

impl Tag {
    /// The byte that the tag holds, if it is of that kind.
    pub fn byte(&self) -> (held: Option<&i8>)
        ensures
            held is Some <==> self is ByteTag,
            held matches Some(value) ==> *self == Tag::ByteTag(*value),
    {
        match self {
            Tag::ByteTag(value) => Some(value),
            _ => None,
        }
    }

    /// The short that the tag holds, if it is of that kind.
    pub fn short(&self) -> (held: Option<&i16>)
        ensures
            held is Some <==> self is ShortTag,
            held matches Some(value) ==> *self == Tag::ShortTag(*value),
    {
        match self {
            Tag::ShortTag(value) => Some(value),
            _ => None,
        }
    }

    /// The int that the tag holds, if it is of that kind.
    pub fn as_int(&self) -> (held: Option<&i32>)
        ensures
            held is Some <==> self is IntTag,
            held matches Some(value) ==> *self == Tag::IntTag(*value),
    {
        match self {
            Tag::IntTag(value) => Some(value),
            _ => None,
        }
    }

    /// The long that the tag holds, if it is of that kind.
    pub fn long(&self) -> (held: Option<&i64>)
        ensures
            held is Some <==> self is LongTag,
            held matches Some(value) ==> *self == Tag::LongTag(*value),
    {
        match self {
            Tag::LongTag(value) => Some(value),
            _ => None,
        }
    }

    /// The bits of the binary32 real that the tag holds, if it is of that kind.
    pub fn float(&self) -> (held: Option<&u32>)
        ensures
            held is Some <==> self is FloatTag,
            held matches Some(value) ==> *self == Tag::FloatTag(*value),
    {
        match self {
            Tag::FloatTag(value) => Some(value),
            _ => None,
        }
    }

    /// The bits of the binary64 real that the tag holds, if it is of that kind.
    pub fn double(&self) -> (held: Option<&u64>)
        ensures
            held is Some <==> self is DoubleTag,
            held matches Some(value) ==> *self == Tag::DoubleTag(*value),
    {
        match self {
            Tag::DoubleTag(value) => Some(value),
            _ => None,
        }
    }

    /// The byte array that the tag holds, if it is of that kind.
    pub fn byte_array(&self) -> (held: Option<&Vec<i8>>)
        ensures
            held is Some <==> self is ByteArray,
            held matches Some(value) ==> *self == Tag::ByteArray(*value),
    {
        match self {
            Tag::ByteArray(value) => Some(value),
            _ => None,
        }
    }

    /// The string that the tag holds, if it is of that kind.
    pub fn string(&self) -> (held: Option<&String>)
        ensures
            held is Some <==> self is StringTag,
            held matches Some(value) ==> *self == Tag::StringTag(*value),
    {
        match self {
            Tag::StringTag(value) => Some(value),
            _ => None,
        }
    }

    /// The items of the list that the tag holds, if it is of that kind.
    pub fn list(&self) -> (held: Option<&Vec<Tag>>)
        ensures
            held is Some <==> self is ListTag,
            held matches Some(value) ==> *self == Tag::ListTag(*value),
    {
        match self {
            Tag::ListTag(value) => Some(value),
            _ => None,
        }
    }

    /// The compound that the tag holds, if it is of that kind.
    pub fn compound(&self) -> (held: Option<&Compound>)
        ensures
            held is Some <==> self is CompoundTag,
            held matches Some(value) ==> *self == Tag::CompoundTag(*value),
    {
        match self {
            Tag::CompoundTag(value) => Some(value),
            _ => None,
        }
    }

    /// The int array that the tag holds, if it is of that kind.
    pub fn int_array(&self) -> (held: Option<&Vec<i32>>)
        ensures
            held is Some <==> self is IntArray,
            held matches Some(value) ==> *self == Tag::IntArray(*value),
    {
        match self {
            Tag::IntArray(value) => Some(value),
            _ => None,
        }
    }

    /// The long array that the tag holds, if it is of that kind.
    pub fn long_array(&self) -> (held: Option<&Vec<i64>>)
        ensures
            held is Some <==> self is LongArray,
            held matches Some(value) ==> *self == Tag::LongArray(*value),
    {
        match self {
            Tag::LongArray(value) => Some(value),
            _ => None,
        }
    }

    /// The byte that the tag holds, to be changed in place, if it is of
    /// that kind. The tag keeps its kind and holds what the borrow ends with.
    pub fn byte_mut(&mut self) -> (held: Option<&mut i8>)
        ensures
            held is Some <==> (*old(self)) is ByteTag,
            held is None ==> *final(self) == *old(self),
            held matches Some(value) ==> *old(self) == Tag::ByteTag(*value) && *final(self)
                == Tag::ByteTag(*final(value)),
    {
        match self {
            Tag::ByteTag(value) => Some(value),
            _ => None,
        }
    }

    /// The short that the tag holds, to be changed in place, if it is of
    /// that kind. The tag keeps its kind and holds what the borrow ends with.
    pub fn short_mut(&mut self) -> (held: Option<&mut i16>)
        ensures
            held is Some <==> (*old(self)) is ShortTag,
            held is None ==> *final(self) == *old(self),
            held matches Some(value) ==> *old(self) == Tag::ShortTag(*value) && *final(self)
                == Tag::ShortTag(*final(value)),
    {
        match self {
            Tag::ShortTag(value) => Some(value),
            _ => None,
        }
    }

    /// The int that the tag holds, to be changed in place, if it is of
    /// that kind. The tag keeps its kind and holds what the borrow ends with.
    pub fn int_mut(&mut self) -> (held: Option<&mut i32>)
        ensures
            held is Some <==> (*old(self)) is IntTag,
            held is None ==> *final(self) == *old(self),
            held matches Some(value) ==> *old(self) == Tag::IntTag(*value) && *final(self)
                == Tag::IntTag(*final(value)),
    {
        match self {
            Tag::IntTag(value) => Some(value),
            _ => None,
        }
    }

    /// The long that the tag holds, to be changed in place, if it is of
    /// that kind. The tag keeps its kind and holds what the borrow ends with.
    pub fn long_mut(&mut self) -> (held: Option<&mut i64>)
        ensures
            held is Some <==> (*old(self)) is LongTag,
            held is None ==> *final(self) == *old(self),
            held matches Some(value) ==> *old(self) == Tag::LongTag(*value) && *final(self)
                == Tag::LongTag(*final(value)),
    {
        match self {
            Tag::LongTag(value) => Some(value),
            _ => None,
        }
    }

    /// The bits of the binary32 real that the tag holds, to be changed in place, if it is of
    /// that kind. The tag keeps its kind and holds what the borrow ends with.
    pub fn float_mut(&mut self) -> (held: Option<&mut u32>)
        ensures
            held is Some <==> (*old(self)) is FloatTag,
            held is None ==> *final(self) == *old(self),
            held matches Some(value) ==> *old(self) == Tag::FloatTag(*value) && *final(self)
                == Tag::FloatTag(*final(value)),
    {
        match self {
            Tag::FloatTag(value) => Some(value),
            _ => None,
        }
    }

    /// The bits of the binary64 real that the tag holds, to be changed in place, if it is of
    /// that kind. The tag keeps its kind and holds what the borrow ends with.
    pub fn double_mut(&mut self) -> (held: Option<&mut u64>)
        ensures
            held is Some <==> (*old(self)) is DoubleTag,
            held is None ==> *final(self) == *old(self),
            held matches Some(value) ==> *old(self) == Tag::DoubleTag(*value) && *final(self)
                == Tag::DoubleTag(*final(value)),
    {
        match self {
            Tag::DoubleTag(value) => Some(value),
            _ => None,
        }
    }

    /// The byte array that the tag holds, to be changed in place, if it is of
    /// that kind. The tag keeps its kind and holds what the borrow ends with.
    pub fn byte_array_mut(&mut self) -> (held: Option<&mut Vec<i8>>)
        ensures
            held is Some <==> (*old(self)) is ByteArray,
            held is None ==> *final(self) == *old(self),
            held matches Some(value) ==> *old(self) == Tag::ByteArray(*value) && *final(self)
                == Tag::ByteArray(*final(value)),
    {
        match self {
            Tag::ByteArray(value) => Some(value),
            _ => None,
        }
    }

    /// The string that the tag holds, to be changed in place, if it is of
    /// that kind. The tag keeps its kind and holds what the borrow ends with.
    pub fn string_mut(&mut self) -> (held: Option<&mut String>)
        ensures
            held is Some <==> (*old(self)) is StringTag,
            held is None ==> *final(self) == *old(self),
            held matches Some(value) ==> *old(self) == Tag::StringTag(*value) && *final(self)
                == Tag::StringTag(*final(value)),
    {
        match self {
            Tag::StringTag(value) => Some(value),
            _ => None,
        }
    }

    /// The items of the list that the tag holds, to be changed in place, if it is of
    /// that kind. The tag keeps its kind and holds what the borrow ends with.
    pub fn list_mut(&mut self) -> (held: Option<&mut Vec<Tag>>)
        ensures
            held is Some <==> (*old(self)) is ListTag,
            held is None ==> *final(self) == *old(self),
            held matches Some(value) ==> *old(self) == Tag::ListTag(*value) && *final(self)
                == Tag::ListTag(*final(value)),
    {
        match self {
            Tag::ListTag(value) => Some(value),
            _ => None,
        }
    }

    /// The compound that the tag holds, to be changed in place, if it is of
    /// that kind. The tag keeps its kind and holds what the borrow ends with.
    pub fn compound_mut(&mut self) -> (held: Option<&mut Compound>)
        ensures
            held is Some <==> (*old(self)) is CompoundTag,
            held is None ==> *final(self) == *old(self),
            held matches Some(value) ==> *old(self) == Tag::CompoundTag(*value) && *final(self)
                == Tag::CompoundTag(*final(value)),
    {
        match self {
            Tag::CompoundTag(value) => Some(value),
            _ => None,
        }
    }

    /// The int array that the tag holds, to be changed in place, if it is of
    /// that kind. The tag keeps its kind and holds what the borrow ends with.
    pub fn int_array_mut(&mut self) -> (held: Option<&mut Vec<i32>>)
        ensures
            held is Some <==> (*old(self)) is IntArray,
            held is None ==> *final(self) == *old(self),
            held matches Some(value) ==> *old(self) == Tag::IntArray(*value) && *final(self)
                == Tag::IntArray(*final(value)),
    {
        match self {
            Tag::IntArray(value) => Some(value),
            _ => None,
        }
    }

    /// The long array that the tag holds, to be changed in place, if it is of
    /// that kind. The tag keeps its kind and holds what the borrow ends with.
    pub fn long_array_mut(&mut self) -> (held: Option<&mut Vec<i64>>)
        ensures
            held is Some <==> (*old(self)) is LongArray,
            held is None ==> *final(self) == *old(self),
            held matches Some(value) ==> *old(self) == Tag::LongArray(*value) && *final(self)
                == Tag::LongArray(*final(value)),
    {
        match self {
            Tag::LongArray(value) => Some(value),
            _ => None,
        }
    }

    /// Adds the number of leaves of the tree to `counter`: one for a scalar or
    /// a string, its length for an array; a list or a compound counts for what
    /// its children count.
    #[verifier::loop_isolation(false)]
    pub fn count_elements(&self, counter: &mut usize)
        requires
            *old(counter) + self@.leaf_count() <= usize::MAX,
        ensures
            *final(counter) == *old(counter) + self@.leaf_count(),
        decreases self,
    {
        match self {
            Tag::ByteTag(_) => *counter += 1,
            Tag::ShortTag(_) => *counter += 1,
            Tag::IntTag(_) => *counter += 1,
            Tag::LongTag(_) => *counter += 1,
            Tag::FloatTag(_) => *counter += 1,
            Tag::DoubleTag(_) => *counter += 1,
            Tag::ByteArray(value) => *counter += value.len(),
            Tag::StringTag(_) => *counter += 1,
            Tag::ListTag(value) => {
                let ghost items = self@->List_0;
                proof {
                    list_view_each(*value);
                }
                let mut i: usize = 0;
                while i < value.len()
                    invariant
                        i <= value.len(),
                        items.len() == value.len(),
                        forall|j: int| 0 <= j < value.len() ==> items[j] == (#[trigger] value[j])@,
                        *counter == *old(counter) + leaves_of(items, i as nat),
                        *old(counter) + leaves_of(items, items.len()) <= usize::MAX,
                    decreases value.len() - i,
                {
                    proof {
                        leaves_of_grows(items, (i + 1) as nat, items.len());
                    }
                    proof {
                        vstd::std_specs::vec::axiom_vec_index_decreases(*value, i as int);
                    }
                    value[i].count_elements(counter);
                    i += 1;
                }
            },
            Tag::CompoundTag(value) => {
                let ghost entries = value@;
                proof {
                    value.view_each();
                }
                let mut i: usize = 0;
                while i < value.entries.len()
                    invariant
                        i <= value.entries.len(),
                        entries.len() == value.entries.len(),
                        forall|j: int|
                            0 <= j < value.entries.len() ==> entries[j].1 == (
                            #[trigger] value.entries[j]).1@,
                        *counter == *old(counter) + entry_leaves(entries, i as nat),
                        *old(counter) + entry_leaves(entries, entries.len()) <= usize::MAX,
                    decreases value.entries.len() - i,
                {
                    proof {
                        entry_leaves_grows(entries, (i + 1) as nat, entries.len());
                    }
                    proof {
                        vstd::std_specs::vec::axiom_vec_index_decreases(value.entries, i as int);
                    }
                    value.entries[i].1.count_elements(counter);
                    i += 1;
                }
            },
            Tag::IntArray(value) => *counter += value.len(),
            Tag::LongArray(value) => *counter += value.len(),
        }
    }
}

} // verus!
