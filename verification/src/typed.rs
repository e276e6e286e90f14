//! Typed values as the writer sees them, and why they come back: whatever
//! the writer writes for a typed value is the encoding of one schema-free
//! value, its image; what is read back is that image; and of all typed
//! values of one layout only the one that was written has it.

use crate::error::ErrorKind;
use crate::roundtrip::{lemma_decode_encode, lemma_encode_entries, lemma_variant_round_trip};
use crate::ser::{dict_bytes, variant_bytes};
use crate::sorted::{
    dict_of, keys_distinct, lemma_dedup_last_of_increasing, lemma_dict_of, lemma_sort_entries,
    lemma_sort_entries_distinct, lemma_sort_entries_of_sorted, lemma_sort_map_payload,
    map_payload, sort_entries,
};
use crate::value::{decode, encode, encode_entries, encode_list, ValueView};
use crate::wire::{bytes_token, int_token, END, LIST_START};
use vstd::prelude::*;

verus! {

/// A typed value, by the calls that write it.
pub ghost enum Typed {
    /// An integer of any width, or a boolean as 0 or 1.
    Int(i64),
    /// A string, a character or a run of bytes by its bytes, or a variant
    /// without payload by its name.
    Bytes(Seq<u8>),
    /// A sequence, a tuple or a tuple struct: its items in their order.
    List(Seq<Typed>),
    /// A map or a struct: the entries that have a value, in the order they
    /// are given. A field without a value writes nothing and is left out.
    Fields(Seq<(Seq<u8>, Typed)>),
    /// A variant with a payload: its name, and the one value, the list of
    /// values or the fields in it.
    Variant(Seq<u8>, Box<Typed>),
}

/// The bytes that the writer writes for a typed value.
pub open spec fn written(t: Typed) -> Seq<u8>
    decreases t,
{
    match t {
        Typed::Int(i) => int_token(i),
        Typed::Bytes(b) => bytes_token(b),
        Typed::List(items) => seq![LIST_START] + written_items(items) + seq![END],
        Typed::Fields(fields) => dict_bytes(written_fields(fields)),
        Typed::Variant(name, payload) => variant_bytes(name, written(*payload)),
    }
}

/// The bytes of the items of a list, one after the other.
pub open spec fn written_items(items: Seq<Typed>) -> Seq<u8>
    decreases items,
{
    if items.len() == 0 {
        Seq::empty()
    } else {
        written_items(items.drop_last()) + written(items.last())
    }
}

/// The entries of a map or struct, each value by its bytes, in the order given.
pub open spec fn written_fields(fields: Seq<(Seq<u8>, Typed)>) -> Seq<(Seq<u8>, Seq<u8>)>
    decreases fields,
{
    if fields.len() == 0 {
        Seq::empty()
    } else {
        written_fields(fields.drop_last()).push((fields.last().0, written(fields.last().1)))
    }
}

/// The schema-free value that a typed value is written as: a list for
/// anything in a row, a dictionary for anything with named parts, and a
/// dictionary with one entry, under the variant's name, for a variant.
pub open spec fn image(t: Typed) -> ValueView
    decreases t,
{
    match t {
        Typed::Int(i) => ValueView::Int(i),
        Typed::Bytes(b) => ValueView::Bytes(b),
        Typed::List(items) => ValueView::List(images(items)),
        Typed::Fields(fields) => ValueView::Dict(dict_of(image_fields(fields))),
        Typed::Variant(name, payload) => ValueView::Dict(seq![(name, image(*payload))]),
    }
}

/// The images of the items of a list.
pub open spec fn images(items: Seq<Typed>) -> Seq<ValueView>
    decreases items,
{
    if items.len() == 0 {
        Seq::empty()
    } else {
        images(items.drop_last()).push(image(items.last()))
    }
}

/// The entries of a map or struct, each value by its image, in the order given.
pub open spec fn image_fields(fields: Seq<(Seq<u8>, Typed)>) -> Seq<(Seq<u8>, ValueView)>
    decreases fields,
{
    if fields.len() == 0 {
        Seq::empty()
    } else {
        image_fields(fields.drop_last()).push((fields.last().0, image(fields.last().1)))
    }
}

/// Whether a typed value can be written and read back: no run of bytes and
/// no name longer than the machine can hold, and no key twice among the
/// entries of a map.
pub open spec fn supported(t: Typed) -> bool
    decreases t,
{
    match t {
        Typed::Int(_) => true,
        Typed::Bytes(b) => b.len() <= usize::MAX,
        Typed::List(items) => forall|i: int|
            0 <= i < items.len() ==> supported(#[trigger] items[i]),
        Typed::Fields(fields) => keys_distinct(fields) && forall|i: int|
            0 <= i < fields.len() ==> (#[trigger] fields[i]).0.len() <= usize::MAX && supported(
                fields[i].1,
            ),
        Typed::Variant(name, payload) => name.len() <= usize::MAX && supported(*payload),
    }
}

/// The images of a list are the images of its items.
pub proof fn lemma_images(items: Seq<Typed>)
    ensures
        images(items).len() == items.len(),
        forall|i: int| 0 <= i < items.len() ==> (#[trigger] images(items)[i]) == image(items[i]),
    decreases items.len(),
{
    if items.len() > 0 {
        lemma_images(items.drop_last());
    }
}

/// The images of entries are the entries with the images of their values.
pub proof fn lemma_image_fields(fields: Seq<(Seq<u8>, Typed)>)
    ensures
        image_fields(fields).len() == fields.len(),
        forall|i: int|
            0 <= i < fields.len() ==> (#[trigger] image_fields(fields)[i]) == (
                fields[i].0,
                image(fields[i].1),
            ),
    decreases fields.len(),
{
    if fields.len() > 0 {
        lemma_image_fields(fields.drop_last());
    }
}

/// **What is written for a typed value** is the encoding of its image, and
/// the image is well formed.
pub proof fn lemma_written(t: Typed)
    requires
        supported(t),
    ensures
        written(t) == encode(image(t)),
        image(t).wf(),
    decreases t,
{
    match t {
        Typed::Int(_) => {},
        Typed::Bytes(_) => {},
        Typed::List(items) => {
            lemma_written_items(items);
            lemma_images(items);
        },
        Typed::Fields(fields) => {
            lemma_written_fields(fields);
            lemma_image_fields(fields);
            let shown = image_fields(fields);
            let bytes = encode_entries(shown);
            let encoder = |v: ValueView| encode(v);
            assert(keys_distinct(shown)) by {
                assert forall|i: int, j: int| 0 <= i < j < shown.len() implies #[trigger] shown[i].0
                    != #[trigger] shown[j].0 by {
                    assert(fields[i].0 != fields[j].0);
                }
            }
            lemma_sort_entries_distinct(shown);
            lemma_dedup_last_of_increasing(sort_entries(shown));
            assert(dict_of(shown) == sort_entries(shown));
            lemma_encode_entries(shown);
            assert(bytes =~= map_payload(shown, encoder));
            lemma_encode_entries(sort_entries(shown));
            assert(encode_entries(sort_entries(shown)) =~= map_payload(
                sort_entries(shown),
                encoder,
            ));
            lemma_sort_map_payload(shown, encoder);
            lemma_sort_entries(bytes);
            lemma_sort_entries_of_sorted(sort_entries(bytes));
            lemma_dict_of(shown);
            let d = dict_of(shown);
            assert forall|i: int| 0 <= i < d.len() implies (#[trigger] d[i]).0.len() <= usize::MAX
                && d[i].1.wf() by {
                assert(shown.contains(d[i]));
                let j = choose|j: int| 0 <= j < shown.len() && shown[j] == d[i];
                assert(shown[j] == (fields[j].0, image(fields[j].1)));
                assert(fields[j].0.len() <= usize::MAX && supported(fields[j].1));
            }
        },
        Typed::Variant(name, payload) => {
            lemma_written(*payload);
            lemma_variant_round_trip(name, image(*payload), Seq::empty());
        },
    }
}

/// What is written for the items of a list is the encoding of their images.
pub proof fn lemma_written_items(items: Seq<Typed>)
    requires
        forall|i: int| 0 <= i < items.len() ==> supported(#[trigger] items[i]),
    ensures
        written_items(items) == encode_list(images(items)),
        forall|i: int| 0 <= i < images(items).len() ==> (#[trigger] images(items)[i]).wf(),
    decreases items,
{
    lemma_images(items);
    if items.len() > 0 {
        let front = items.drop_last();
        assert forall|i: int| 0 <= i < front.len() implies supported(#[trigger] front[i]) by {
            assert(front[i] == items[i]);
        }
        lemma_written_items(front);
        lemma_images(front);
        assert(supported(items[items.len() - 1]));
        lemma_written(items.last());
        assert(images(items).drop_last() =~= images(front));
        assert forall|i: int| 0 <= i < images(items).len() implies (#[trigger] images(
            items,
        )[i]).wf() by {
            if i < front.len() {
                assert(images(items)[i] == images(front)[i]);
            }
        }
    } else {
        assert(images(items) =~= Seq::<ValueView>::empty());
    }
}

/// What is written for the entries of a map is the encoding of their images.
pub proof fn lemma_written_fields(fields: Seq<(Seq<u8>, Typed)>)
    requires
        forall|i: int|
            0 <= i < fields.len() ==> (#[trigger] fields[i]).0.len() <= usize::MAX && supported(
                fields[i].1,
            ),
    ensures
        written_fields(fields) == encode_entries(image_fields(fields)),
        forall|i: int|
            0 <= i < fields.len() ==> image(#[trigger] fields[i].1).wf(),
    decreases fields,
{
    lemma_image_fields(fields);
    if fields.len() > 0 {
        let front = fields.drop_last();
        assert forall|i: int| 0 <= i < front.len() implies (#[trigger] front[i]).0.len()
            <= usize::MAX && supported(front[i].1) by {
            assert(front[i] == fields[i]);
        }
        lemma_written_fields(front);
        assert(fields[fields.len() - 1].0.len() <= usize::MAX && supported(
            fields[fields.len() - 1].1,
        ));
        lemma_written(fields.last().1);
        assert(image_fields(fields).drop_last() =~= image_fields(front));
        assert forall|i: int| 0 <= i < fields.len() implies image(#[trigger] fields[i].1).wf() by {
            if i < front.len() {
                assert(front[i] == fields[i]);
            }
        }
    } else {
        assert(image_fields(fields) =~= Seq::<(Seq<u8>, ValueView)>::empty());
    }
}

/// **Typed values come back.** What the writer writes for a typed value,
/// with anything behind it, decodes to the value's image and to nothing
/// else, and the decoder takes exactly what was written.
pub proof fn lemma_typed_round_trip(t: Typed, rest: Seq<u8>)
    requires
        supported(t),
    ensures
        decode(written(t) + rest) == Ok::<(ValueView, int), ErrorKind>(
            (image(t), written(t).len() as int),
        ),
{
    lemma_written(t);
    lemma_decode_encode(image(t), rest);
}

/// Whether two typed values are laid out alike: the same kind of thing, as
/// many items, the same keys in the same order, the same variant, and so for
/// every part.
pub open spec fn same_layout(a: Typed, b: Typed) -> bool
    decreases a,
{
    match (a, b) {
        (Typed::Int(_), Typed::Int(_)) => true,
        (Typed::Bytes(_), Typed::Bytes(_)) => true,
        (Typed::List(x), Typed::List(y)) => x.len() == y.len() && forall|i: int|
            0 <= i < x.len() ==> same_layout(#[trigger] x[i], y[i]),
        (Typed::Fields(x), Typed::Fields(y)) => x.len() == y.len() && forall|i: int|
            0 <= i < x.len() ==> (#[trigger] x[i]).0 == y[i].0 && same_layout(x[i].1, y[i].1),
        (Typed::Variant(n, p), Typed::Variant(m, q)) => n == m && same_layout(*p, *q),
        _ => false,
    }
}

/// **One image, one value.** Two typed values of one layout with the same
/// image are the same value: nothing of a typed value is lost in its image.
pub proof fn lemma_image_is_faithful(a: Typed, b: Typed)
    requires
        supported(a),
        supported(b),
        same_layout(a, b),
        image(a) == image(b),
    ensures
        a == b,
    decreases a,
{
    match (a, b) {
        (Typed::List(x), Typed::List(y)) => {
            lemma_images(x);
            lemma_images(y);
            assert forall|i: int| 0 <= i < x.len() implies x[i] == y[i] by {
                assert(images(x)[i] == images(y)[i]);
                assert(supported(x[i]) && supported(y[i]) && same_layout(x[i], y[i]));
                lemma_image_is_faithful(x[i], y[i]);
            }
            assert(x =~= y);
        },
        (Typed::Fields(x), Typed::Fields(y)) => {
            lemma_image_fields(x);
            lemma_image_fields(y);
            let px = image_fields(x);
            let py = image_fields(y);
            assert(keys_distinct(px)) by {
                assert forall|i: int, j: int| 0 <= i < j < px.len() implies #[trigger] px[i].0
                    != #[trigger] px[j].0 by {
                    assert(x[i].0 != x[j].0);
                }
            }
            assert(keys_distinct(py)) by {
                assert forall|i: int, j: int| 0 <= i < j < py.len() implies #[trigger] py[i].0
                    != #[trigger] py[j].0 by {
                    assert(y[i].0 != y[j].0);
                }
            }
            lemma_sort_entries_distinct(px);
            lemma_sort_entries_distinct(py);
            lemma_dedup_last_of_increasing(sort_entries(px));
            lemma_dedup_last_of_increasing(sort_entries(py));
            assert(sort_entries(px) == sort_entries(py));
            assert forall|i: int| 0 <= i < x.len() implies x[i] == y[i] by {
                assert(px.contains(px[i]));
                assert(sort_entries(px).contains(px[i]));
                assert(py.contains(px[i]));
                let j = choose|j: int| 0 <= j < py.len() && py[j] == px[i];
                assert(py[j].0 == y[j].0 && px[i].0 == x[i].0 && x[i].0 == y[i].0);
                if j < i {
                    assert(y[j].0 != y[i].0);
                } else if i < j {
                    assert(y[i].0 != y[j].0);
                }
                assert(image(x[i].1) == image(y[i].1));
                assert(supported(x[i].1) && supported(y[i].1) && same_layout(x[i].1, y[i].1));
                lemma_image_is_faithful(x[i].1, y[i].1);
            }
            assert(x =~= y);
        },
        (Typed::Variant(n, p), Typed::Variant(m, q)) => {
            let first = seq![(n, image(*p))];
            let second = seq![(m, image(*q))];
            assert(first[0] == second[0]);
            lemma_image_is_faithful(*p, *q);
        },
        _ => {},
    }
}

} // verus!
