//! What a reader makes of bytes that end too early: if a value is read from
//! some bytes, then from a beginning of those bytes that still holds the
//! whole value the same value is read, and from a shorter one nothing is
//! read but `IoError`.

use crate::bytes::be_value;
use crate::laws::{read_entries_shortens, read_items_shortens, read_payload_shortens};
use crate::model::{with_entry, TagView};
use crate::read::{
    item_at, read_bytes, read_count, read_document, read_entries, read_ints, read_items,
    read_longs, read_payload, read_text, Failure, Read,
};
use vstd::prelude::*;

verus! {

/// What a reading of `full` that gave `whole` gives when only the first
/// `cut` bytes are there: the same value, and what is left of the rest, if
/// the value ends before the cut; `IoError` if the cut goes through it.
pub open spec fn cut_short<T>(full: Seq<u8>, cut: int, whole: Read<T>) -> Read<T> {
    match whole {
        Ok((value, rest)) => {
            let taken = full.len() - rest.len();
            if taken <= cut {
                Ok((value, rest.subrange(0, cut - taken)))
            } else {
                Err(Failure::IoError)
            }
        },
        Err(e) => Err(e),
    }
}

/// A string that is cut short.
pub proof fn text_cut(full: Seq<u8>, cut: int)
    requires
        read_text(full) is Ok,
        0 <= cut <= full.len(),
    ensures
        read_text(full.subrange(0, cut)) == cut_short(full, cut, read_text(full)),
{
    let part = full.subrange(0, cut);
    if cut >= 2 {
        assert(part.subrange(0, 2) =~= full.subrange(0, 2));
        let count = be_value(full.subrange(0, 2));
        if cut >= 2 + count {
            assert(part.subrange(2, 2 + count as int) =~= full.subrange(2, 2 + count as int));
            assert(part.skip(2 + count as int) =~= full.skip(2 + count as int).subrange(
                0,
                cut - (2 + count),
            ));
        }
    }
}

/// A count that is cut short.
pub proof fn count_cut(full: Seq<u8>, cut: int)
    requires
        read_count(full) is Ok,
        0 <= cut <= full.len(),
    ensures
        read_count(full.subrange(0, cut)) == cut_short(full, cut, read_count(full)),
{
    let part = full.subrange(0, cut);
    if cut >= 4 {
        assert(part.subrange(0, 4) =~= full.subrange(0, 4));
        assert(part.skip(4) =~= full.skip(4).subrange(0, cut - 4));
    }
}

/// Where the items lie before the cut, they are the same items.
proof fn items_before_cut(full: Seq<u8>, cut: int, count: nat, width: nat)
    requires
        0 <= cut <= full.len(),
        width * count <= cut,
    ensures
        forall|i: int|
            0 <= i < count ==> item_at(full.subrange(0, cut), i, width) == #[trigger] item_at(
                full,
                i,
                width,
            ),
{
    let part = full.subrange(0, cut);
    assert forall|i: int| 0 <= i < count implies item_at(part, i, width) == #[trigger] item_at(
        full,
        i,
        width,
    ) by {
        assert(0 <= i * width && i * width + width <= width * count) by (nonlinear_arith)
            requires
                0 <= i < count,
        ;
        assert(part.subrange(i * width, i * width + width) =~= full.subrange(
            i * width,
            i * width + width,
        ));
    }
}

/// A byte array that is cut short.
pub proof fn bytes_cut(count: nat, full: Seq<u8>, cut: int)
    requires
        read_bytes(count, full) is Ok,
        0 <= cut <= full.len(),
    ensures
        read_bytes(count, full.subrange(0, cut)) == cut_short(full, cut, read_bytes(count, full)),
{
    let part = full.subrange(0, cut);
    if cut >= count {
        items_before_cut(full, cut, count, 1);
        assert(Seq::new(count, |i: int| item_at(part, i, 1) as i8) =~= Seq::new(
            count,
            |i: int| item_at(full, i, 1) as i8,
        ));
        assert(part.skip(count as int) =~= full.skip(count as int).subrange(0, cut - count));
    }
}

/// An int array that is cut short.
pub proof fn ints_cut(count: nat, full: Seq<u8>, cut: int)
    requires
        read_ints(count, full) is Ok,
        0 <= cut <= full.len(),
    ensures
        read_ints(count, full.subrange(0, cut)) == cut_short(full, cut, read_ints(count, full)),
{
    let part = full.subrange(0, cut);
    if cut >= 4 * count {
        items_before_cut(full, cut, count, 4);
        assert(Seq::new(count, |i: int| item_at(part, i, 4) as i32) =~= Seq::new(
            count,
            |i: int| item_at(full, i, 4) as i32,
        ));
        assert(part.skip(4 * count as int) =~= full.skip(4 * count as int).subrange(
            0,
            cut - 4 * count,
        ));
    }
}

/// A long array that is cut short.
pub proof fn longs_cut(count: nat, full: Seq<u8>, cut: int)
    requires
        read_longs(count, full) is Ok,
        0 <= cut <= full.len(),
    ensures
        read_longs(count, full.subrange(0, cut)) == cut_short(full, cut, read_longs(count, full)),
{
    let part = full.subrange(0, cut);
    if cut >= 8 * count {
        items_before_cut(full, cut, count, 8);
        assert(Seq::new(count, |i: int| item_at(part, i, 8) as i64) =~= Seq::new(
            count,
            |i: int| item_at(full, i, 8) as i64,
        ));
        assert(part.skip(8 * count as int) =~= full.skip(8 * count as int).subrange(
            0,
            cut - 8 * count,
        ));
    }
}

/// A scalar of `width` bytes that is cut short: the bytes of the value are
/// the same before the cut, and so is what follows them.
proof fn scalar_cut(full: Seq<u8>, cut: int, width: nat)
    requires
        width <= cut <= full.len(),
    ensures
        full.subrange(0, cut).subrange(0, width as int) == full.subrange(0, width as int),
        full.subrange(0, cut).subrange(0int * width, 0int * width + width) == full.subrange(
            0int * width,
            0int * width + width,
        ),
        full.subrange(0, cut).skip(width as int) == full.skip(width as int).subrange(
            0,
            cut - width,
        ),
{
    let part = full.subrange(0, cut);
    assert(part.subrange(0, width as int) =~= full.subrange(0, width as int));
    assert(part.skip(width as int) =~= full.skip(width as int).subrange(0, cut - width));
    assert(0int * width == 0) by (nonlinear_arith);
}

/// A payload that is cut short: from the first `cut` bytes the same value is
/// read if it ends before the cut, and `IoError` comes if the cut goes
/// through it.
pub proof fn payload_cut(kind: u8, full: Seq<u8>, cut: int)
    requires
        read_payload(kind, full) is Ok,
        0 <= cut <= full.len(),
    ensures
        read_payload(kind, full.subrange(0, cut)) == cut_short(
            full,
            cut,
            read_payload(kind, full),
        ),
    decreases full.len(), 1nat,
{
    let part = full.subrange(0, cut);
    if kind == 1 {
        if cut >= 1 {
            scalar_cut(full, cut, 1);
        }
    } else if kind == 2 {
        if cut >= 2 {
            scalar_cut(full, cut, 2);
        }
    } else if kind == 3 || kind == 5 {
        if cut >= 4 {
            scalar_cut(full, cut, 4);
        }
    } else if kind == 4 || kind == 6 {
        if cut >= 8 {
            scalar_cut(full, cut, 8);
        }
    } else if kind == 7 {
        count_cut(full, cut);
        if cut >= 4 {
            let (count, rest) = read_count(full)->Ok_0;
            bytes_cut(count, rest, cut - 4);
        }
    } else if kind == 8 {
        text_cut(full, cut);
    } else if kind == 9 {
        let (count, rest) = read_count(full.skip(1))->Ok_0;
        read_items_shortens(full[0], count, rest, Seq::empty());
        if cut >= 1 {
            assert(part[0] == full[0]);
            assert(part.skip(1) =~= full.skip(1).subrange(0, cut - 1));
            count_cut(full.skip(1), cut - 1);
            if cut >= 5 {
                items_cut(full[0], count, rest, Seq::empty(), cut - 5);
            }
        }
    } else if kind == 10 {
        entries_cut(full, Seq::empty(), true, cut);
    } else if kind == 11 {
        count_cut(full, cut);
        if cut >= 4 {
            let (count, rest) = read_count(full)->Ok_0;
            ints_cut(count, rest, cut - 4);
        }
    } else if kind == 12 {
        count_cut(full, cut);
        if cut >= 4 {
            let (count, rest) = read_count(full)->Ok_0;
            longs_cut(count, rest, cut - 4);
        }
    }
}

/// The items of a list that are cut short.
pub proof fn items_cut(kind: u8, count: nat, full: Seq<u8>, found: Seq<TagView>, cut: int)
    requires
        read_items(kind, count, full, found) is Ok,
        0 <= cut <= full.len(),
    ensures
        read_items(kind, count, full.subrange(0, cut), found) == cut_short(
            full,
            cut,
            read_items(kind, count, full, found),
        ),
    decreases full.len(), 2nat, count,
{
    let part = full.subrange(0, cut);
    if count == 0 {
        assert(part =~= full.subrange(0, cut - 0));
    } else {
        let (value, after) = read_payload(kind, full)->Ok_0;
        let taken = full.len() - after.len();
        let later = found.push(value);
        payload_cut(kind, full, cut);
        read_items_shortens(kind, (count - 1) as nat, after, later);
        if taken <= cut {
            items_cut(kind, (count - 1) as nat, after, later, cut - taken);
        }
    }
}

/// The entries of a compound that are cut short. Inside a document the
/// same entries are read if their end byte comes before the cut, and
/// `IoError` comes if it does not; the entries of the document itself,
/// which end where the bytes end, are read up to the last that is whole, or
/// `IoError` comes.
pub proof fn entries_cut(
    full: Seq<u8>,
    found: Seq<(Seq<char>, TagView)>,
    nested: bool,
    cut: int,
)
    requires
        read_entries(full, found, nested) is Ok,
        0 <= cut <= full.len(),
    ensures
        nested ==> read_entries(full.subrange(0, cut), found, nested) == cut_short(
            full,
            cut,
            read_entries(full, found, nested),
        ),
        !nested ==> read_entries(full.subrange(0, cut), found, nested) is Ok || read_entries(
            full.subrange(0, cut),
            found,
            nested,
        ) == Err::<(Seq<(Seq<char>, TagView)>, Seq<u8>), _>(Failure::IoError),
    decreases full.len(), 0nat,
{
    let part = full.subrange(0, cut);
    if full.len() == 0 {
        assert(part =~= full);
    } else if cut == 0 {
        read_entries_shortens(full, found, nested);
    } else if full[0] == 0 {
        assert(part[0] == full[0]);
        assert(part.skip(1) =~= full.skip(1).subrange(0, cut - 1));
    } else {
        assert(part[0] == full[0]);
        assert(part.skip(1) =~= full.skip(1).subrange(0, cut - 1));
        let (name, after_name) = read_text(full.skip(1))->Ok_0;
        let (value, after) = read_payload(full[0], after_name)->Ok_0;
        let later = with_entry(found, name, value);
        let name_taken = full.len() - 1 - after_name.len();
        let value_taken = after_name.len() - after.len();
        text_cut(full.skip(1), cut - 1);
        read_payload_shortens(full[0], after_name);
        read_entries_shortens(after, later, nested);
        if name_taken <= cut - 1 {
            payload_cut(full[0], after_name, cut - 1 - name_taken);
            if value_taken <= cut - 1 - name_taken {
                entries_cut(after, later, nested, cut - 1 - name_taken - value_taken);
            }
        }
    }
}

/// A value that is cut short is `IoError`: if a payload is read from some
/// bytes, nothing but `IoError` is read from a beginning of them that ends
/// inside the value.
pub proof fn cut_value_fails(kind: u8, full: Seq<u8>, cut: int)
    requires
        read_payload(kind, full) is Ok,
        0 <= cut < full.len() - read_payload(kind, full)->Ok_0.1.len(),
    ensures
        read_payload(kind, full.subrange(0, cut)) == Err::<(TagView, Seq<u8>), _>(Failure::IoError),
{
    read_payload_shortens(kind, full);
    payload_cut(kind, full, cut);
}

/// A document that is cut short reads as a document of fewer entries, where
/// the cut comes between two entries of the root, or is `IoError`: no other
/// failure comes of a cut.
pub proof fn cut_document(full: Seq<u8>, cut: int)
    requires
        read_document(full) is Ok,
        0 <= cut <= full.len(),
    ensures
        read_document(full.subrange(0, cut)) is Ok || read_document(full.subrange(0, cut)) == Err::<
            TagView,
            _,
        >(Failure::IoError),
{
    entries_cut(full, Seq::empty(), false, cut);
}

} // verus!
