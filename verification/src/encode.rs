use crate::event::{views, Event, EventView};
use crate::variant::{lemma_views_of_entries, lemma_views_of_items, Variant, VariantView};
use vstd::prelude::*;

verus! {

/// The name under which every named wrapper is announced. The wrapped
/// value's own type name travels inside the payload.
pub open spec fn wrapper_name() -> Seq<char> {
    "_"@
}

/// The events that stand for `value`, in the order in which an encoder
/// receives them.
pub open spec fn events_of(value: VariantView) -> Seq<EventView>
    decreases value,
{
    match value {
        VariantView::Bool(v) => seq![EventView::Bool(v)],
        VariantView::I8(v) => seq![EventView::I8(v)],
        VariantView::I16(v) => seq![EventView::I16(v)],
        VariantView::I32(v) => seq![EventView::I32(v)],
        VariantView::I64(v) => seq![EventView::I64(v)],
        VariantView::I128(v) => seq![EventView::I128(v)],
        VariantView::U8(v) => seq![EventView::U8(v)],
        VariantView::U16(v) => seq![EventView::U16(v)],
        VariantView::U32(v) => seq![EventView::U32(v)],
        VariantView::U64(v) => seq![EventView::U64(v)],
        VariantView::U128(v) => seq![EventView::U128(v)],
        VariantView::F32(v) => seq![EventView::F32(v)],
        VariantView::F64(v) => seq![EventView::F64(v)],
        VariantView::Char(v) => seq![EventView::Char(v)],
        VariantView::Str(v) => seq![EventView::Str(v)],
        VariantView::Bytes(v) => seq![EventView::Bytes(v)],
        VariantView::Option(None) => seq![EventView::Absent],
        VariantView::Option(Some(inner)) => seq![EventView::Present] + events_of(*inner),
        VariantView::Unit => seq![EventView::Unit],
        VariantView::NewtypeStruct(name, inner) => seq![
            EventView::NewtypeStruct { name: wrapper_name() },
            EventView::TupleStart { len: 2 },
            EventView::Str(name),
        ] + events_of(*inner) + seq![EventView::TupleEnd],
        VariantView::Array(items) => seq![EventView::SeqStart { len: Some(items.len() as usize) }]
            + events_of_items(items) + seq![EventView::SeqEnd],
        VariantView::Mapping(entries) => seq![
            EventView::MapStart { len: Some(entries.len() as usize) },
        ] + events_of_entries(entries) + seq![EventView::MapEnd],
    }
}

/// The events of the items of a sequence, one item after the other.
pub open spec fn events_of_items(items: Seq<VariantView>) -> Seq<EventView>
    decreases items,
{
    if items.len() == 0 {
        Seq::empty()
    } else {
        events_of_items(items.drop_last()) + events_of(items.last())
    }
}

/// The events of the entries of a mapping: for each entry its key, then its
/// value.
pub open spec fn events_of_entries(entries: Seq<(Seq<char>, VariantView)>) -> Seq<EventView>
    decreases entries,
{
    if entries.len() == 0 {
        Seq::empty()
    } else {
        events_of_entries(entries.drop_last()) + seq![EventView::Str(entries.last().0)]
            + events_of(entries.last().1)
    }
}

/// Appending one event appends its view.
proof fn lemma_views_push(events: Seq<Event>, event: Event)
    ensures
        views(events.push(event)) == views(events).push(event@),
{
    assert(views(events.push(event)) =~= views(events).push(event@));
}

fn emit(out: &mut Vec<Event>, event: Event)
    ensures
        views(final(out)@) == views(old(out)@).push(event@),
{
    proof {
        lemma_views_push(out@, event);
    }
    out.push(event);
}

/// Appends the events of `value` to `out`.
#[verifier::loop_isolation(false)]
fn encode_into(value: &Variant, out: &mut Vec<Event>)
    ensures
        views(final(out)@) == views(old(out)@) + events_of(value@),
    decreases value,
{
    let ghost before = views(out@);
    match value {
        Variant::Bool(v) => emit(out, Event::Bool(*v)),
        Variant::I8(v) => emit(out, Event::I8(*v)),
        Variant::I16(v) => emit(out, Event::I16(*v)),
        Variant::I32(v) => emit(out, Event::I32(*v)),
        Variant::I64(v) => emit(out, Event::I64(*v)),
        Variant::I128(v) => emit(out, Event::I128(*v)),
        Variant::U8(v) => emit(out, Event::U8(*v)),
        Variant::U16(v) => emit(out, Event::U16(*v)),
        Variant::U32(v) => emit(out, Event::U32(*v)),
        Variant::U64(v) => emit(out, Event::U64(*v)),
        Variant::U128(v) => emit(out, Event::U128(*v)),
        Variant::F32(v) => emit(out, Event::F32(*v)),
        Variant::F64(v) => emit(out, Event::F64(*v)),
        Variant::Char(v) => emit(out, Event::Char(*v)),
        Variant::Str(v) => emit(out, Event::Str(v.clone())),
        Variant::Bytes(v) => emit(out, Event::Bytes(v.clone())),
        Variant::Option(None) => emit(out, Event::Absent),
        Variant::Option(Some(inner)) => {
            emit(out, Event::Present);
            encode_into(inner, out);
        },
        Variant::Unit => emit(out, Event::Unit),
        Variant::NewtypeStruct(name, inner) => {
            emit(out, Event::NewtypeStruct { name: "_".to_owned() });
            emit(out, Event::TupleStart { len: 2 });
            emit(out, Event::Str(name.clone()));
            encode_into(inner, out);
            emit(out, Event::TupleEnd);
        },
        Variant::Array(items) => {
            let ghost item_views = value@->Array_0;
            proof {
                lemma_views_of_items(items@);
            }
            emit(out, Event::SeqStart { len: Some(items.len()) });
            let mut i: usize = 0;
            while i < items.len()
                invariant
                    i <= items.len(),
                    item_views.len() == items.len(),
                    forall|k: int| 0 <= k < items.len() ==> item_views[k] == items[k]@,
                    views(out@) == before.push(EventView::SeqStart { len: Some(items.len()) })
                        + events_of_items(item_views.take(i as int)),
                decreases items.len() - i,
            {
                encode_into(&items[i], out);
                proof {
                    let next = item_views.take(i + 1);
                    assert(next.drop_last() =~= item_views.take(i as int));
                    assert(next.last() == items[i as int]@);
                }
                i += 1;
            }
            proof {
                assert(item_views.take(i as int) =~= item_views);
            }
            emit(out, Event::SeqEnd);
        },
        Variant::Mapping(entries) => {
            let ghost entry_views = value@->Mapping_0;
            proof {
                lemma_views_of_entries(entries@);
            }
            emit(out, Event::MapStart { len: Some(entries.len()) });
            let mut i: usize = 0;
            while i < entries.len()
                invariant
                    i <= entries.len(),
                    entry_views.len() == entries.len(),
                    forall|k: int|
                        0 <= k < entries.len() ==> entry_views[k] == (
                            entries[k].0@,
                            entries[k].1@,
                        ),
                    views(out@) == before.push(EventView::MapStart { len: Some(entries.len()) })
                        + events_of_entries(entry_views.take(i as int)),
                decreases entries.len() - i,
            {
                emit(out, Event::Str(entries[i].0.clone()));
                encode_into(&entries[i].1, out);
                proof {
                    let next = entry_views.take(i + 1);
                    assert(next.drop_last() =~= entry_views.take(i as int));
                    assert(next.last() == (entries[i as int].0@, entries[i as int].1@));
                }
                i += 1;
            }
            proof {
                assert(entry_views.take(i as int) =~= entry_views);
            }
            emit(out, Event::MapEnd);
        },
    }
}

/// Turns a value into the events that stand for it.
///
/// Every case gives the event of its own kind with the payload unchanged:
/// no integer changes its width, no text is checked or rewritten, and the
/// items of a sequence and the entries of a mapping follow in their order.
pub fn encode(value: &Variant) -> (events: Vec<Event>)
    ensures
        views(events@) == events_of(value@),
{
    let mut events: Vec<Event> = Vec::new();
    encode_into(value, &mut events);
    events
}

} // verus!
