use crate::decode::{parse, parse_entries, parse_items, parse_value, parse_wrapped, DecodeError};
use crate::encode::{events_of, events_of_entries, events_of_items, wrapper_name};
use crate::event::EventView;
use crate::extent::extent;
use crate::normal::{
    lemma_normal_is_well_formed, lemma_normalized_entries, lemma_normalized_items,
    lemma_well_formed_is_normal, normalized, normalized_entries, normalized_items,
};
use crate::ordered::{collect, lemma_put_all_first, put, put_all, unique_keys};
use crate::variant::{lemma_all_values_well_formed, well_formed, Variant, VariantView};
use vstd::prelude::*;

verus! {

/// `part` stands in `events` from position `at` on.
pub open spec fn holds_at(events: Seq<EventView>, at: int, part: Seq<EventView>) -> bool {
    &&& 0 <= at
    &&& at + part.len() <= events.len()
    &&& forall|k: int| 0 <= k < part.len() ==> events[at + k] == #[trigger] part[k]
}

/// A run that stands at a position has its first half there, and its second
/// half behind the first.
proof fn lemma_holds_split(events: Seq<EventView>, at: int, a: Seq<EventView>, b: Seq<EventView>)
    requires
        holds_at(events, at, a + b),
    ensures
        holds_at(events, at, a),
        holds_at(events, at + a.len(), b),
{
    assert forall|k: int| 0 <= k < a.len() implies events[at + k] == #[trigger] a[k] by {
        assert((a + b)[k] == a[k]);
    }
    assert forall|k: int| 0 <= k < b.len() implies events[at + a.len() + k] == #[trigger] b[k] by {
        assert((a + b)[a.len() + k] == b[k]);
    }
}

/// An event with which a value can start: any but the three that close a
/// composite.
pub open spec fn opens_value(event: EventView) -> bool {
    !(event is SeqEnd || event is TupleEnd || event is MapEnd)
}

/// The events of a value are at least one, and the first opens a value.
proof fn lemma_events_of_first(value: VariantView)
    ensures
        events_of(value).len() > 0,
        opens_value(events_of(value)[0]),
{
}

/// The events of the items of a sequence are those of the first item, then
/// those of the others.
proof fn lemma_events_of_items_first(items: Seq<VariantView>)
    requires
        items.len() > 0,
    ensures
        events_of_items(items) == events_of(items[0]) + events_of_items(items.skip(1)),
    decreases items.len(),
{
    if items.len() == 1 {
        assert(items.drop_last() =~= Seq::empty());
        assert(items.skip(1) =~= Seq::empty());
        assert(events_of_items(items) =~= events_of(items[0]) + events_of_items(items.skip(1)));
    } else {
        lemma_events_of_items_first(items.drop_last());
        assert(items.drop_last().skip(1) =~= items.skip(1).drop_last());
        assert(items.drop_last()[0] == items[0]);
        assert(items.skip(1).last() == items.last());
        assert(events_of_items(items) =~= events_of(items[0]) + events_of_items(items.skip(1)));
    }
}

/// The events of the entries of a mapping are the key and the value of the
/// first entry, then those of the others.
proof fn lemma_events_of_entries_first(entries: Seq<(Seq<char>, VariantView)>)
    requires
        entries.len() > 0,
    ensures
        events_of_entries(entries) == seq![EventView::Str(entries[0].0)] + events_of(entries[0].1)
            + events_of_entries(entries.skip(1)),
    decreases entries.len(),
{
    if entries.len() == 1 {
        assert(entries.drop_last() =~= Seq::empty());
        assert(entries.skip(1) =~= Seq::empty());
        assert(events_of_entries(entries) =~= seq![EventView::Str(entries[0].0)] + events_of(
            entries[0].1,
        ) + events_of_entries(entries.skip(1)));
    } else {
        lemma_events_of_entries_first(entries.drop_last());
        assert(entries.drop_last().skip(1) =~= entries.skip(1).drop_last());
        assert(entries.drop_last()[0] == entries[0]);
        assert(entries.skip(1).last() == entries.last());
        assert(events_of_entries(entries) =~= seq![EventView::Str(entries[0].0)] + events_of(
            entries[0].1,
        ) + events_of_entries(entries.skip(1)));
    }
}

/// Where the events of a value stand, the normal form of that value is
/// read, and the reading ends behind them.
pub proof fn lemma_parse_value_of(events: Seq<EventView>, at: int, value: VariantView)
    requires
        holds_at(events, at, events_of(value)),
    ensures
        parse_value(events, at) == Ok::<(VariantView, int), DecodeError>(
            (normalized(value), at + events_of(value).len()),
        ),
    decreases value, 0int,
{
    lemma_events_of_first(value);
    let own = events_of(value);
    assert(events[at] == own[0]);
    match value {
        VariantView::Option(Some(inner)) => {
            lemma_holds_split(events, at, seq![EventView::Present], events_of(*inner));
            lemma_parse_value_of(events, at + 1, *inner);
        },
        VariantView::NewtypeStruct(name, inner) => {
            let head = seq![
                EventView::NewtypeStruct { name: wrapper_name() },
                EventView::TupleStart { len: 2 },
                EventView::Str(name),
            ];
            let body = events_of(*inner);
            let tail = seq![EventView::TupleEnd];
            lemma_holds_split(events, at, head + body, tail);
            lemma_holds_split(events, at, head, body);
            assert(events[at + 1] == head[1]);
            assert(events[at + 2] == head[2]);
            assert(events[at + 3 + body.len()] == tail[0]);
            lemma_parse_value_of(events, at + 3, *inner);
            assert(parse_wrapped(events, at + 1) == Ok::<(VariantView, int), DecodeError>(
                (normalized(value), at + own.len()),
            ));
        },
        VariantView::Array(items) => {
            let head = seq![EventView::SeqStart { len: Some(items.len() as usize) }];
            let body = events_of_items(items);
            let tail = seq![EventView::SeqEnd];
            lemma_holds_split(events, at, head + body, tail);
            lemma_holds_split(events, at, head, body);
            assert(events[at + 1 + body.len()] == tail[0]);
            lemma_parse_items_of(events, at + 1, EventView::SeqEnd, Seq::empty(), items);
            assert(Seq::<VariantView>::empty() + normalized_items(items) =~= normalized_items(
                items,
            ));
        },
        VariantView::Mapping(entries) => {
            let head = seq![EventView::MapStart { len: Some(entries.len() as usize) }];
            let body = events_of_entries(entries);
            let tail = seq![EventView::MapEnd];
            lemma_holds_split(events, at, head + body, tail);
            lemma_holds_split(events, at, head, body);
            assert(events[at + 1 + body.len()] == tail[0]);
            lemma_parse_entries_of(events, at + 1, Seq::empty(), entries);
        },
        _ => {},
    }
}

/// Where the events of items stand, followed by the closing event, the
/// normal forms of the items are read one after the other.
pub proof fn lemma_parse_items_of(
    events: Seq<EventView>,
    at: int,
    close: EventView,
    read: Seq<VariantView>,
    items: Seq<VariantView>,
)
    requires
        !opens_value(close),
        holds_at(events, at, events_of_items(items)),
        at + events_of_items(items).len() < events.len(),
        events[at + events_of_items(items).len()] == close,
    ensures
        parse_items(events, at, close, read) == Ok::<(Seq<VariantView>, int), DecodeError>(
            (read + normalized_items(items), at + events_of_items(items).len() + 1),
        ),
    decreases items, 1int,
{
    if items.len() == 0 {
        assert(read + normalized_items(items) =~= read);
    } else {
        let first = items[0];
        let rest = items.skip(1);
        lemma_events_of_items_first(items);
        lemma_events_of_first(first);
        lemma_holds_split(events, at, events_of(first), events_of_items(rest));
        assert(events[at] == events_of(first)[0]);
        lemma_parse_value_of(events, at, first);
        let next = at + events_of(first).len();
        lemma_parse_items_of(events, next, close, read.push(normalized(first)), rest);
        lemma_normalized_items(items);
        lemma_normalized_items(rest);
        assert(read.push(normalized(first)) + normalized_items(rest) =~= read + normalized_items(
            items,
        ));
    }
}

/// Where the events of entries stand, followed by the closing event, the
/// entries are put one after the other, each with the normal form of its
/// value.
pub proof fn lemma_parse_entries_of(
    events: Seq<EventView>,
    at: int,
    read: Seq<(Seq<char>, VariantView)>,
    entries: Seq<(Seq<char>, VariantView)>,
)
    requires
        holds_at(events, at, events_of_entries(entries)),
        at + events_of_entries(entries).len() < events.len(),
        events[at + events_of_entries(entries).len()] == EventView::MapEnd,
    ensures
        parse_entries(events, at, read) == Ok::<(Seq<(Seq<char>, VariantView)>, int), DecodeError>(
            (
                put_all(read, normalized_entries(entries)),
                at + events_of_entries(entries).len() + 1,
            ),
        ),
    decreases entries, 1int,
{
    if entries.len() == 0 {
    } else {
        let key = entries[0].0;
        let value = entries[0].1;
        let rest = entries.skip(1);
        lemma_events_of_entries_first(entries);
        let head = seq![EventView::Str(key)];
        lemma_holds_split(events, at, head + events_of(value), events_of_entries(rest));
        lemma_holds_split(events, at, head, events_of(value));
        assert(events[at] == head[0]);
        lemma_parse_value_of(events, at + 1, value);
        let next = at + 1 + events_of(value).len();
        lemma_parse_entries_of(events, next, put(read, key, normalized(value)), rest);
        lemma_normalized_entries(entries);
        lemma_normalized_entries(rest);
        assert(normalized_entries(entries).skip(1) =~= normalized_entries(rest));
        lemma_put_all_first(read, normalized_entries(entries));
    }
}

/// Decoding undoes encoding: the events of a well-formed value stand for
/// that value, with every payload, every item, and every entry of every
/// mapping in its place.
pub proof fn round_trip(value: Variant)
    requires
        value.wf(),
    ensures
        parse(events_of(value@)) == Ok::<VariantView, DecodeError>(value@),
{
    lemma_parse_value_of(events_of(value@), 0, value@);
    lemma_well_formed_is_normal(value@);
}

/// What is decoded from the events of any value is its normal form: the
/// value itself but for the mappings that repeat a key, which come back as
/// if they had been read from a document.
pub proof fn round_trip_of_any(value: Variant)
    ensures
        parse(events_of(value@)) == Ok::<VariantView, DecodeError>(normalized(value@)),
        well_formed(normalized(value@)),
        value.wf() ==> normalized(value@) == value@,
{
    lemma_parse_value_of(events_of(value@), 0, value@);
    lemma_normal_is_well_formed(value@);
    if value.wf() {
        lemma_well_formed_is_normal(value@);
    }
}

/// The events of a value, wherever they stand, are passed over as one
/// value: each part of what was encoded is found by its end.
pub proof fn encoded_extent(events: Seq<EventView>, at: int, value: VariantView)
    requires
        holds_at(events, at, events_of(value)),
    ensures
        extent(events, at) == Ok::<int, DecodeError>(at + events_of(value).len()),
{
    lemma_parse_value_of(events, at, value);
}

/// A document of one event that is read gives a value that is written as
/// that same event: the kind and the payload are kept, and no number moves
/// to another width.
pub proof fn single_event_kept(event: EventView, value: VariantView)
    requires
        parse(seq![event]) == Ok::<VariantView, DecodeError>(value),
    ensures
        events_of(value) == seq![event],
{
    let events = seq![event];
    assert(events[0] == event);
    match event {
        EventView::Present => {
            assert(parse_value(events, 1) is Err);
        },
        EventView::NewtypeStruct { .. } => {
            assert(parse_wrapped(events, 1) is Err);
        },
        EventView::SeqStart { .. } => {
            assert(parse_items(events, 1, EventView::SeqEnd, Seq::empty()) is Err);
        },
        EventView::TupleStart { .. } => {
            assert(parse_items(events, 1, EventView::TupleEnd, Seq::empty()) is Err);
        },
        EventView::MapStart { .. } => {
            assert(parse_entries(events, 1, Seq::empty()) is Err);
        },
        _ => {},
    }
}

/// An integer of any width is read as the value of its own width with the
/// same number, up to the least and the greatest that the width holds.
pub proof fn integer_widths_kept(
    a: i8,
    b: i16,
    c: i32,
    d: i64,
    e: i128,
    f: u8,
    g: u16,
    h: u32,
    i: u64,
    j: u128,
)
    ensures
        parse(seq![EventView::I8(a)]) == Ok::<VariantView, DecodeError>(VariantView::I8(a)),
        parse(seq![EventView::I16(b)]) == Ok::<VariantView, DecodeError>(VariantView::I16(b)),
        parse(seq![EventView::I32(c)]) == Ok::<VariantView, DecodeError>(VariantView::I32(c)),
        parse(seq![EventView::I64(d)]) == Ok::<VariantView, DecodeError>(VariantView::I64(d)),
        parse(seq![EventView::I128(e)]) == Ok::<VariantView, DecodeError>(VariantView::I128(e)),
        parse(seq![EventView::U8(f)]) == Ok::<VariantView, DecodeError>(VariantView::U8(f)),
        parse(seq![EventView::U16(g)]) == Ok::<VariantView, DecodeError>(VariantView::U16(g)),
        parse(seq![EventView::U32(h)]) == Ok::<VariantView, DecodeError>(VariantView::U32(h)),
        parse(seq![EventView::U64(i)]) == Ok::<VariantView, DecodeError>(VariantView::U64(i)),
        parse(seq![EventView::U128(j)]) == Ok::<VariantView, DecodeError>(VariantView::U128(j)),
{
    assert(seq![EventView::I8(a)][0] == EventView::I8(a));
    assert(seq![EventView::I16(b)][0] == EventView::I16(b));
    assert(seq![EventView::I32(c)][0] == EventView::I32(c));
    assert(seq![EventView::I64(d)][0] == EventView::I64(d));
    assert(seq![EventView::I128(e)][0] == EventView::I128(e));
    assert(seq![EventView::U8(f)][0] == EventView::U8(f));
    assert(seq![EventView::U16(g)][0] == EventView::U16(g));
    assert(seq![EventView::U32(h)][0] == EventView::U32(h));
    assert(seq![EventView::U64(i)][0] == EventView::U64(i));
    assert(seq![EventView::U128(j)][0] == EventView::U128(j));
}

/// A mapping is read as its entries leave it when they are put into an
/// empty mapping in the order of the document: a key that comes again
/// replaces the entry that had it, and its entry stands last.
pub proof fn mapping_read_as_collected(
    hint: Option<usize>,
    entries: Seq<(Seq<char>, VariantView)>,
)
    ensures
        parse(
            seq![EventView::MapStart { len: hint }] + events_of_entries(entries)
                + seq![EventView::MapEnd],
        ) == Ok::<VariantView, DecodeError>(
            VariantView::Mapping(collect(normalized_entries(entries))),
        ),
{
    let body = events_of_entries(entries);
    let events = seq![EventView::MapStart { len: hint }] + body + seq![EventView::MapEnd];
    assert(events[0] == EventView::MapStart { len: hint });
    assert(events[1 + body.len() as int] == EventView::MapEnd);
    assert(holds_at(events, 1, body)) by {
        assert forall|k: int| 0 <= k < body.len() implies events[1 + k] == #[trigger] body[k] by {}
    }
    lemma_parse_entries_of(events, 1, Seq::empty(), entries);
}

/// The entries of a mapping are read in the order of the document, and
/// written in the order in which they were read: where no key comes twice,
/// nothing is sorted, moved or dropped, whatever length the document hints
/// at.
pub proof fn key_order_kept(hint: Option<usize>, entries: Seq<(Seq<char>, VariantView)>)
    requires
        unique_keys(entries),
        forall|i: int| 0 <= i < entries.len() ==> well_formed((#[trigger] entries[i]).1),
    ensures
        parse(
            seq![EventView::MapStart { len: hint }] + events_of_entries(entries)
                + seq![EventView::MapEnd],
        ) == Ok::<VariantView, DecodeError>(VariantView::Mapping(entries)),
        events_of(VariantView::Mapping(entries)) == seq![
            EventView::MapStart { len: Some(entries.len() as usize) },
        ] + events_of_entries(entries) + seq![EventView::MapEnd],
{
    mapping_read_as_collected(hint, entries);
    lemma_all_values_well_formed(entries);
    lemma_well_formed_is_normal(VariantView::Mapping(entries));
}

} // verus!
