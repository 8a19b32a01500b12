//! The mathematical value of a tag tree, over which every contract of this
//! crate is stated.

use vstd::prelude::*;

verus! {

/// What a tag tree is: one of twelve kinds of value. Reals are held by their
/// IEEE-754 bits; a compound is the sequence of its entries, in the order in
/// which they were put in.
pub enum TagView {
    Byte(i8),
    Short(i16),
    Int(i32),
    Long(i64),
    Float(u32),
    Double(u64),
    ByteArray(Seq<i8>),
    Text(Seq<char>),
    List(Seq<TagView>),
    Compound(Seq<(Seq<char>, TagView)>),
    IntArray(Seq<i32>),
    LongArray(Seq<i64>),
}

/// No two entries have the same name.
pub open spec fn distinct_keys<V>(entries: Seq<(Seq<char>, V)>) -> bool {
    forall|i: int, j: int|
        0 <= i < j < entries.len() ==> (#[trigger] entries[i]).0 != (#[trigger] entries[j]).0
}

/// Whether some entry has this name.
pub open spec fn has_key<V>(entries: Seq<(Seq<char>, V)>, key: Seq<char>) -> bool {
    exists|i: int| 0 <= i < entries.len() && (#[trigger] entries[i]).0 == key
}

/// The place of the first entry with this name; the length where there is none.
pub open spec fn key_index<V>(entries: Seq<(Seq<char>, V)>, key: Seq<char>) -> int
    decreases entries.len(),
{
    if entries.len() == 0 {
        0
    } else if entries[0].0 == key {
        0
    } else {
        1 + key_index(entries.drop_first(), key)
    }
}

/// The entries after `key` has been given `value`: an entry of that name keeps
/// its place and takes the new value, a new name goes to the end.
pub open spec fn with_entry<V>(entries: Seq<(Seq<char>, V)>, key: Seq<char>, value: V) -> Seq<
    (Seq<char>, V),
> {
    let at = key_index(entries, key);
    if at < entries.len() {
        entries.update(at, (key, value))
    } else {
        entries.push((key, value))
    }
}

impl TagView {
    /// The number that names the value's kind on the wire, 1 to 12.
    pub open spec fn kind(self) -> u8 {
        match self {
            TagView::Byte(_) => 1,
            TagView::Short(_) => 2,
            TagView::Int(_) => 3,
            TagView::Long(_) => 4,
            TagView::Float(_) => 5,
            TagView::Double(_) => 6,
            TagView::ByteArray(_) => 7,
            TagView::Text(_) => 8,
            TagView::List(_) => 9,
            TagView::Compound(_) => 10,
            TagView::IntArray(_) => 11,
            TagView::LongArray(_) => 12,
        }
    }

    /// Every compound in the tree has distinct names.
    pub open spec fn well_formed(self) -> bool
        decreases self,
    {
        match self {
            TagView::List(items) => forall|i: int|
                0 <= i < items.len() ==> (#[trigger] items[i]).well_formed(),
            TagView::Compound(entries) => distinct_keys(entries) && forall|i: int|
                0 <= i < entries.len() ==> (#[trigger] entries[i]).1.well_formed(),
            _ => true,
        }
    }

    /// The number of leaves: one for a scalar or a string, its length for an
    /// array, the sum over the children for a list or a compound.
    pub open spec fn leaf_count(self) -> nat
        decreases self,
    {
        match self {
            TagView::ByteArray(items) => items.len(),
            TagView::IntArray(items) => items.len(),
            TagView::LongArray(items) => items.len(),
            TagView::List(items) => leaves_of(items, items.len()),
            TagView::Compound(entries) => entry_leaves(entries, entries.len()),
            _ => 1,
        }
    }
}

/// The leaves of the first `n` of `items`.
pub open spec fn leaves_of(items: Seq<TagView>, n: nat) -> nat
    decreases items, n,
{
    if n == 0 || n > items.len() {
        0
    } else {
        leaves_of(items, (n - 1) as nat) + items[n - 1].leaf_count()
    }
}

/// What `key_index` returns: the place of the first entry with the name.
pub proof fn key_index_found<V>(entries: Seq<(Seq<char>, V)>, key: Seq<char>)
    ensures
        0 <= key_index(entries, key) <= entries.len(),
        key_index(entries, key) < entries.len() ==> entries[key_index(entries, key)].0 == key,
        forall|j: int| 0 <= j < key_index(entries, key) ==> (#[trigger] entries[j]).0 != key,
        has_key(entries, key) <==> key_index(entries, key) < entries.len(),
    decreases entries.len(),
{
    if entries.len() == 0 {
    } else if entries[0].0 == key {
    } else {
        let rest = entries.drop_first();
        key_index_found(rest, key);
        let at = key_index(rest, key);
        assert forall|j: int| 0 <= j < at + 1 implies (#[trigger] entries[j]).0 != key by {
            if j > 0 {
                assert(rest[j - 1] == entries[j]);
            }
        }
        if at < rest.len() {
            assert(rest[at] == entries[at + 1]);
        }
        if has_key(entries, key) {
            let w = choose|i: int| 0 <= i < entries.len() && (#[trigger] entries[i]).0 == key;
            assert(rest[w - 1] == entries[w]);
        }
    }
}

/// `key_index` is the first place at which the name stands.
pub proof fn key_index_first<V>(entries: Seq<(Seq<char>, V)>, key: Seq<char>, at: int)
    requires
        0 <= at <= entries.len(),
        forall|j: int| 0 <= j < at ==> (#[trigger] entries[j]).0 != key,
        at < entries.len() ==> entries[at].0 == key,
    ensures
        key_index(entries, key) == at,
        has_key(entries, key) <==> at < entries.len(),
    decreases entries.len(),
{
    if entries.len() == 0 {
    } else if at == 0 {
    } else {
        let rest = entries.drop_first();
        assert forall|j: int| 0 <= j < at - 1 implies (#[trigger] rest[j]).0 != key by {
            assert(rest[j] == entries[j + 1]);
        }
        key_index_first(rest, key, at - 1);
        assert(entries[0].0 != key);
    }
}

/// The leaves of a longer prefix are no fewer.
pub proof fn leaves_of_grows(items: Seq<TagView>, m: nat, n: nat)
    requires
        m <= n <= items.len(),
    ensures
        leaves_of(items, m) <= leaves_of(items, n),
    decreases n,
{
    if m < n {
        leaves_of_grows(items, m, (n - 1) as nat);
    }
}

/// The leaves under a longer prefix of entries are no fewer.
pub proof fn entry_leaves_grows(entries: Seq<(Seq<char>, TagView)>, m: nat, n: nat)
    requires
        m <= n <= entries.len(),
    ensures
        entry_leaves(entries, m) <= entry_leaves(entries, n),
    decreases n,
{
    if m < n {
        entry_leaves_grows(entries, m, (n - 1) as nat);
    }
}

/// The leaves under the first `n` of `entries`.
pub open spec fn entry_leaves(entries: Seq<(Seq<char>, TagView)>, n: nat) -> nat
    decreases entries, n,
{
    if n == 0 || n > entries.len() {
        0
    } else {
        entry_leaves(entries, (n - 1) as nat) + entries[n - 1].1.leaf_count()
    }
}

/// Giving a name a value keeps the names distinct.
pub proof fn with_entry_distinct<V>(entries: Seq<(Seq<char>, V)>, key: Seq<char>, value: V)
    requires
        distinct_keys(entries),
    ensures
        distinct_keys(with_entry(entries, key, value)),
        with_entry(entries, key, value).len() >= entries.len(),
        forall|i: int|
            0 <= i < with_entry(entries, key, value).len() ==> (#[trigger] with_entry(
                entries,
                key,
                value,
            )[i]) == (key, value) || (i < entries.len() && with_entry(entries, key, value)[i]
                == entries[i]),
{
    key_index_found(entries, key);
    let at = key_index(entries, key);
    let after = with_entry(entries, key, value);
    assert forall|i: int, j: int| 0 <= i < j < after.len() implies (#[trigger] after[i]).0 != (
    #[trigger] after[j]).0 by {
        if j < entries.len() {
            assert(entries[i].0 != entries[j].0);
        }
        if at < entries.len() {
            if i != at {
                assert(entries[i].0 != entries[at].0);
            }
            if j != at {
                assert(entries[j].0 != entries[at].0);
            }
        } else {
            assert(after[i] == entries[i]);
        }
    }
}

} // verus!
