use crate::event::{views, Event, EventView};
use crate::ordered::{
    entry_views, into_entries, lemma_entry_views_put, lemma_entry_views_unique, lemma_put_keeps,
    lemma_put_unique, map_entries, map_insert, map_new, map_with_capacity, presize, put,
    unique_keys,
};
use crate::variant::{
    lemma_all_values_well_formed, lemma_all_well_formed, lemma_views_of_entries,
    lemma_views_of_items, views_of_entries, views_of_items, Variant, VariantView,
};
use vstd::prelude::*;

verus! {

/// Why a run of events does not stand for a value.
#[derive(Debug, Clone, Copy, PartialEq, Eq, Structural)]
pub enum DecodeError {
    /// The events end where a value, or the rest of one, is still due.
    UnexpectedEnd,
    /// The event at this position cannot stand there.
    UnexpectedEvent(usize),
    /// A whole value ends before this position, and events follow it.
    TrailingEvents(usize),
}

/// The value that starts at position `at` of `events`, and the position
/// after its last event.
pub open spec fn parse_value(events: Seq<EventView>, at: int) -> Result<
    (VariantView, int),
    DecodeError,
>
    decreases events.len() - at, 0int,
{
    if at < 0 || at >= events.len() {
        Err(DecodeError::UnexpectedEnd)
    } else {
        match events[at] {
            EventView::Bool(v) => Ok((VariantView::Bool(v), at + 1)),
            EventView::I8(v) => Ok((VariantView::I8(v), at + 1)),
            EventView::I16(v) => Ok((VariantView::I16(v), at + 1)),
            EventView::I32(v) => Ok((VariantView::I32(v), at + 1)),
            EventView::I64(v) => Ok((VariantView::I64(v), at + 1)),
            EventView::I128(v) => Ok((VariantView::I128(v), at + 1)),
            EventView::U8(v) => Ok((VariantView::U8(v), at + 1)),
            EventView::U16(v) => Ok((VariantView::U16(v), at + 1)),
            EventView::U32(v) => Ok((VariantView::U32(v), at + 1)),
            EventView::U64(v) => Ok((VariantView::U64(v), at + 1)),
            EventView::U128(v) => Ok((VariantView::U128(v), at + 1)),
            EventView::F32(v) => Ok((VariantView::F32(v), at + 1)),
            EventView::F64(v) => Ok((VariantView::F64(v), at + 1)),
            EventView::Char(v) => Ok((VariantView::Char(v), at + 1)),
            EventView::Str(v) => Ok((VariantView::Str(v), at + 1)),
            EventView::Bytes(v) => Ok((VariantView::Bytes(v), at + 1)),
            EventView::Absent => Ok((VariantView::Option(None), at + 1)),
            EventView::Present => match parse_value(events, at + 1) {
                Ok((inner, next)) => Ok((VariantView::Option(Some(Box::new(inner))), next)),
                Err(e) => Err(e),
            },
            EventView::Unit => Ok((VariantView::Unit, at + 1)),
            EventView::NewtypeStruct { .. } => parse_wrapped(events, at + 1),
            EventView::SeqStart { .. } => match parse_items(
                events,
                at + 1,
                EventView::SeqEnd,
                Seq::empty(),
            ) {
                Ok((items, next)) => Ok((VariantView::Array(items), next)),
                Err(e) => Err(e),
            },
            EventView::TupleStart { .. } => match parse_items(
                events,
                at + 1,
                EventView::TupleEnd,
                Seq::empty(),
            ) {
                Ok((items, next)) => Ok((VariantView::Array(items), next)),
                Err(e) => Err(e),
            },
            EventView::MapStart { .. } => match parse_entries(events, at + 1, Seq::empty()) {
                Ok((entries, next)) => Ok((VariantView::Mapping(entries), next)),
                Err(e) => Err(e),
            },
            EventView::SeqEnd | EventView::TupleEnd | EventView::MapEnd => Err(
                DecodeError::UnexpectedEvent(at as usize),
            ),
        }
    }
}

/// The payload of a named wrapper, which starts at position `at`: a tuple of
/// the wrapped value's type name and the value.
pub open spec fn parse_wrapped(events: Seq<EventView>, at: int) -> Result<
    (VariantView, int),
    DecodeError,
>
    decreases events.len() - at, 1int,
{
    if at < 0 || at >= events.len() {
        Err(DecodeError::UnexpectedEnd)
    } else if events[at] != (EventView::TupleStart { len: 2 }) {
        Err(DecodeError::UnexpectedEvent(at as usize))
    } else if at + 1 >= events.len() {
        Err(DecodeError::UnexpectedEnd)
    } else {
        match events[at + 1] {
            EventView::Str(name) => match parse_value(events, at + 2) {
                Ok((inner, next)) => if next < 0 || next >= events.len() {
                    Err(DecodeError::UnexpectedEnd)
                } else if events[next] == EventView::TupleEnd {
                    Ok((VariantView::NewtypeStruct(name, Box::new(inner)), next + 1))
                } else {
                    Err(DecodeError::UnexpectedEvent(next as usize))
                },
                Err(e) => Err(e),
            },
            _ => Err(DecodeError::UnexpectedEvent((at + 1) as usize)),
        }
    }
}

/// The items of a sequence from position `at` up to the event `close`,
/// appended to `items`, and the position after `close`.
///
/// An item always ends after the position at which it starts; the test of
/// `next` is there for the sake of termination only.
pub open spec fn parse_items(
    events: Seq<EventView>,
    at: int,
    close: EventView,
    items: Seq<VariantView>,
) -> Result<(Seq<VariantView>, int), DecodeError>
    decreases events.len() - at, 1int,
{
    if at < 0 || at >= events.len() {
        Err(DecodeError::UnexpectedEnd)
    } else if events[at] == close {
        Ok((items, at + 1))
    } else {
        match parse_value(events, at) {
            Ok((item, next)) => if at < next <= events.len() {
                parse_items(events, next, close, items.push(item))
            } else {
                Err(DecodeError::UnexpectedEnd)
            },
            Err(e) => Err(e),
        }
    }
}

/// The entries of a mapping from position `at` up to the closing event,
/// put into `entries` one after the other, and the position after the
/// closing event.
///
/// A value always ends after the position at which it starts; the test of
/// `next` is there for the sake of termination only.
pub open spec fn parse_entries(
    events: Seq<EventView>,
    at: int,
    entries: Seq<(Seq<char>, VariantView)>,
) -> Result<(Seq<(Seq<char>, VariantView)>, int), DecodeError>
    decreases events.len() - at, 1int,
{
    if at < 0 || at >= events.len() {
        Err(DecodeError::UnexpectedEnd)
    } else {
        match events[at] {
            EventView::MapEnd => Ok((entries, at + 1)),
            EventView::Str(key) => match parse_value(events, at + 1) {
                Ok((value, next)) => if at < next <= events.len() {
                    parse_entries(events, next, put(entries, key, value))
                } else {
                    Err(DecodeError::UnexpectedEnd)
                },
                Err(e) => Err(e),
            },
            _ => Err(DecodeError::UnexpectedEvent(at as usize)),
        }
    }
}

/// The value that `events` stand for, if they stand for exactly one.
pub open spec fn parse(events: Seq<EventView>) -> Result<VariantView, DecodeError> {
    match parse_value(events, 0) {
        Ok((value, next)) => if next == events.len() {
            Ok(value)
        } else {
            Err(DecodeError::TrailingEvents(next as usize))
        },
        Err(e) => Err(e),
    }
}

/// A value that is read ends after the position at which it starts, and
/// within the events.
pub proof fn lemma_parse_value_advances(events: Seq<EventView>, at: int)
    ensures
        parse_value(events, at) matches Ok(found) ==> at < found.1 <= events.len(),
    decreases events.len() - at, 0int,
{
    if 0 <= at < events.len() {
        match events[at] {
            EventView::Present => {
                lemma_parse_value_advances(events, at + 1);
            },
            EventView::NewtypeStruct { .. } => {
                if at + 2 < events.len() {
                    lemma_parse_value_advances(events, at + 3);
                }
                assert(parse_wrapped(events, at + 1) matches Ok(found) ==> at + 1 < found.1
                    <= events.len());
            },
            EventView::SeqStart { .. } => {
                lemma_parse_items_advances(events, at + 1, EventView::SeqEnd, Seq::empty());
            },
            EventView::TupleStart { .. } => {
                lemma_parse_items_advances(events, at + 1, EventView::TupleEnd, Seq::empty());
            },
            EventView::MapStart { .. } => {
                lemma_parse_entries_advances(events, at + 1, Seq::empty());
            },
            _ => {},
        }
    }
}

/// The items of a sequence that are read end after the position at which
/// they start, and within the events.
pub proof fn lemma_parse_items_advances(
    events: Seq<EventView>,
    at: int,
    close: EventView,
    items: Seq<VariantView>,
)
    ensures
        parse_items(events, at, close, items) matches Ok(found) ==> at < found.1 <= events.len(),
    decreases events.len() - at, 1int,
{
    if 0 <= at < events.len() && events[at] != close {
        match parse_value(events, at) {
            Ok((item, next)) => {
                if at < next <= events.len() {
                    lemma_parse_items_advances(events, next, close, items.push(item));
                }
            },
            Err(_) => {},
        }
    }
}

/// The entries of a mapping that are read end after the position at which
/// they start, and within the events.
pub proof fn lemma_parse_entries_advances(
    events: Seq<EventView>,
    at: int,
    entries: Seq<(Seq<char>, VariantView)>,
)
    ensures
        parse_entries(events, at, entries) matches Ok(found) ==> at < found.1 <= events.len(),
    decreases events.len() - at, 1int,
{
    if 0 <= at < events.len() {
        match events[at] {
            EventView::Str(key) => match parse_value(events, at + 1) {
                Ok((value, next)) => {
                    if at < next <= events.len() {
                        lemma_parse_entries_advances(events, next, put(entries, key, value));
                    }
                },
                Err(_) => {},
            },
            _ => {},
        }
    }
}

/// The event that closes a sequence: one for a tuple, one for any other.
pub open spec fn closing(tuple: bool) -> EventView {
    if tuple {
        EventView::TupleEnd
    } else {
        EventView::SeqEnd
    }
}

/// The views of a run of events are as many as the events, and stand at the
/// same positions.
pub proof fn lemma_views_index(events: Seq<Event>)
    ensures
        views(events).len() == events.len(),
        forall|i: int| 0 <= i < events.len() ==> #[trigger] views(events)[i] == events[i]@,
{
}

fn decode_value(events: &[Event], at: usize) -> (result: Result<(Variant, usize), DecodeError>)
    ensures
        match result {
            Ok((value, next)) => {
                &&& parse_value(views(events@), at as int) == Ok::<(VariantView, int), DecodeError>(
                    (value@, next as int),
                )
                &&& at < next <= events.len()
                &&& value.wf()
            },
            Err(e) => parse_value(views(events@), at as int) == Err::<(VariantView, int), DecodeError>(
                e,
            ),
        },
    decreases events.len() - at, 0int,
{
    proof {
        lemma_views_index(events@);
    }
    if at >= events.len() {
        return Err(DecodeError::UnexpectedEnd);
    }
    match &events[at] {
        Event::Bool(v) => Ok((Variant::Bool(*v), at + 1)),
        Event::I8(v) => Ok((Variant::I8(*v), at + 1)),
        Event::I16(v) => Ok((Variant::I16(*v), at + 1)),
        Event::I32(v) => Ok((Variant::I32(*v), at + 1)),
        Event::I64(v) => Ok((Variant::I64(*v), at + 1)),
        Event::I128(v) => Ok((Variant::I128(*v), at + 1)),
        Event::U8(v) => Ok((Variant::U8(*v), at + 1)),
        Event::U16(v) => Ok((Variant::U16(*v), at + 1)),
        Event::U32(v) => Ok((Variant::U32(*v), at + 1)),
        Event::U64(v) => Ok((Variant::U64(*v), at + 1)),
        Event::U128(v) => Ok((Variant::U128(*v), at + 1)),
        Event::F32(v) => Ok((Variant::F32(*v), at + 1)),
        Event::F64(v) => Ok((Variant::F64(*v), at + 1)),
        Event::Char(v) => Ok((Variant::Char(*v), at + 1)),
        Event::Str(v) => Ok((Variant::Str(v.clone()), at + 1)),
        Event::Bytes(v) => Ok((Variant::Bytes(v.clone()), at + 1)),
        Event::Absent => Ok((Variant::Option(None), at + 1)),
        Event::Present => match decode_value(events, at + 1) {
            Ok((inner, next)) => Ok((Variant::Option(Some(Box::new(inner))), next)),
            Err(e) => Err(e),
        },
        Event::Unit => Ok((Variant::Unit, at + 1)),
        Event::NewtypeStruct { .. } => decode_wrapped(events, at + 1),
        Event::SeqStart { len } => match decode_items(events, at + 1, false, presize(*len)) {
            Ok((items, next)) => {
                proof {
                    lemma_views_of_items(items@);
                    lemma_all_well_formed(views_of_items(items@));
                }
                Ok((Variant::Array(items), next))
            },
            Err(e) => Err(e),
        },
        Event::TupleStart { len } => match decode_items(
            events,
            at + 1,
            true,
            presize(Some(*len)),
        ) {
            Ok((items, next)) => {
                proof {
                    lemma_views_of_items(items@);
                    lemma_all_well_formed(views_of_items(items@));
                }
                Ok((Variant::Array(items), next))
            },
            Err(e) => Err(e),
        },
        Event::MapStart { len } => match decode_entries(events, at + 1, *len) {
            Ok((entries, next)) => {
                proof {
                    lemma_views_of_entries(entries@);
                    lemma_all_values_well_formed(views_of_entries(entries@));
                }
                Ok((Variant::Mapping(entries), next))
            },
            Err(e) => Err(e),
        },
        Event::SeqEnd | Event::TupleEnd | Event::MapEnd => Err(DecodeError::UnexpectedEvent(at)),
    }
}

fn decode_wrapped(events: &[Event], at: usize) -> (result: Result<(Variant, usize), DecodeError>)
    requires
        0 < at <= events.len(),
    ensures
        match result {
            Ok((value, next)) => {
                &&& parse_wrapped(views(events@), at as int) == Ok::<
                    (VariantView, int),
                    DecodeError,
                >((value@, next as int))
                &&& at < next <= events.len()
                &&& value.wf()
            },
            Err(e) => parse_wrapped(views(events@), at as int) == Err::<
                (VariantView, int),
                DecodeError,
            >(e),
        },
    decreases events.len() - at, 1int,
{
    proof {
        lemma_views_index(events@);
    }
    if at >= events.len() {
        return Err(DecodeError::UnexpectedEnd);
    }
    let opens = match &events[at] {
        Event::TupleStart { len } => *len == 2,
        _ => false,
    };
    if !opens {
        return Err(DecodeError::UnexpectedEvent(at));
    }
    if at + 1 >= events.len() {
        return Err(DecodeError::UnexpectedEnd);
    }
    match &events[at + 1] {
        Event::Str(name) => match decode_value(events, at + 2) {
            Ok((inner, next)) => {
                if next >= events.len() {
                    return Err(DecodeError::UnexpectedEnd);
                }
                match &events[next] {
                    Event::TupleEnd => Ok(
                        (Variant::NewtypeStruct(name.clone(), Box::new(inner)), next + 1),
                    ),
                    _ => Err(DecodeError::UnexpectedEvent(next)),
                }
            },
            Err(e) => Err(e),
        },
        _ => Err(DecodeError::UnexpectedEvent(at + 1)),
    }
}

fn decode_items(events: &[Event], at: usize, tuple: bool, room: usize) -> (result: Result<
    (Vec<Variant>, usize),
    DecodeError,
>)
    requires
        0 < at <= events.len(),
    ensures
        match result {
            Ok((items, next)) => {
                &&& parse_items(views(events@), at as int, closing(tuple), Seq::empty()) == Ok::<
                    (Seq<VariantView>, int),
                    DecodeError,
                >((views_of_items(items@), next as int))
                &&& at < next <= events.len()
                &&& forall|k: int| 0 <= k < items.len() ==> (#[trigger] items[k]).wf()
            },
            Err(e) => parse_items(views(events@), at as int, closing(tuple), Seq::empty()) == Err::<
                (Seq<VariantView>, int),
                DecodeError,
            >(e),
        },
    decreases events.len() - at, 1int,
{
    proof {
        lemma_views_index(events@);
    }
    let mut items: Vec<Variant> = Vec::with_capacity(room);
    let mut i: usize = at;
    loop
        invariant
            at <= i <= events.len(),
            views(events@).len() == events.len(),
            forall|k: int| 0 <= k < events.len() ==> #[trigger] views(events@)[k] == events[k]@,
            parse_items(views(events@), at as int, closing(tuple), Seq::empty()) == parse_items(
                views(events@),
                i as int,
                closing(tuple),
                views_of_items(items@),
            ),
            forall|k: int| 0 <= k < items.len() ==> (#[trigger] items[k]).wf(),
        decreases events.len() - i,
    {
        if i >= events.len() {
            return Err(DecodeError::UnexpectedEnd);
        }
        let closes = match &events[i] {
            Event::SeqEnd => !tuple,
            Event::TupleEnd => tuple,
            _ => false,
        };
        if closes {
            return Ok((items, i + 1));
        }
        match decode_value(events, i) {
            Ok((item, next)) => {
                proof {
                    let longer = items@.push(item);
                    assert(longer.drop_last() =~= items@);
                    assert(views_of_items(longer) == views_of_items(items@).push(item@));
                }
                items.push(item);
                i = next;
            },
            Err(e) => {
                return Err(e);
            },
        }
    }
}

fn decode_entries(events: &[Event], at: usize, hint: Option<usize>) -> (result: Result<
    (Vec<(String, Variant)>, usize),
    DecodeError,
>)
    requires
        0 < at <= events.len(),
    ensures
        match result {
            Ok((entries, next)) => {
                &&& parse_entries(views(events@), at as int, Seq::empty()) == Ok::<
                    (Seq<(Seq<char>, VariantView)>, int),
                    DecodeError,
                >((views_of_entries(entries@), next as int))
                &&& at < next <= events.len()
                &&& unique_keys(views_of_entries(entries@))
                &&& forall|k: int| 0 <= k < entries.len() ==> (#[trigger] entries[k]).1.wf()
            },
            Err(e) => parse_entries(views(events@), at as int, Seq::empty()) == Err::<
                (Seq<(Seq<char>, VariantView)>, int),
                DecodeError,
            >(e),
        },
    decreases events.len() - at, 1int,
{
    proof {
        lemma_views_index(events@);
    }
    let mut map = match hint {
        Some(_) => map_with_capacity(presize(hint)),
        None => map_new(),
    };
    assert(entry_views(map_entries(map)) =~= Seq::empty());
    let mut i: usize = at;
    loop
        invariant
            at <= i <= events.len(),
            views(events@).len() == events.len(),
            forall|k: int| 0 <= k < events.len() ==> #[trigger] views(events@)[k] == events[k]@,
            parse_entries(views(events@), at as int, Seq::empty()) == parse_entries(
                views(events@),
                i as int,
                entry_views(map_entries(map)),
            ),
            unique_keys(map_entries(map)),
            forall|k: int|
                0 <= k < map_entries(map).len() ==> (#[trigger] map_entries(map)[k]).1.wf(),
        decreases events.len() - i,
    {
        if i >= events.len() {
            return Err(DecodeError::UnexpectedEnd);
        }
        match &events[i] {
            Event::MapEnd => {
                proof {
                    lemma_entry_views_unique(map_entries(map));
                }
                let entries = into_entries(map);
                return Ok((entries, i + 1));
            },
            Event::Str(key) => match decode_value(events, i + 1) {
                Ok((value, next)) => {
                    proof {
                        lemma_entry_views_put(map_entries(map), key@, value);
                        lemma_put_unique(map_entries(map), key@, value);
                        lemma_put_keeps(map_entries(map), key@, value);
                    }
                    map_insert(&mut map, key.clone(), value);
                    i = next;
                },
                Err(e) => {
                    return Err(e);
                },
            },
            _ => {
                return Err(DecodeError::UnexpectedEvent(i));
            },
        }
    }
}

/// Builds the value that a run of events stands for.
///
/// The events must hold exactly one value. Each scalar event gives the
/// value of its own kind with the payload unchanged; a sequence keeps the
/// order of its items; a mapping keeps the order in which its keys came,
/// and where a key comes again the later entry replaces the earlier one and
/// stands last. Length hints only set room aside and decide nothing.
pub fn decode(events: &[Event]) -> (result: Result<Variant, DecodeError>)
    ensures
        match result {
            Ok(value) => parse(views(events@)) == Ok::<VariantView, DecodeError>(value@) && value.wf(),
            Err(e) => parse(views(events@)) == Err::<VariantView, DecodeError>(e),
        },
{
    match decode_value(events, 0) {
        Ok((value, next)) => if next == events.len() {
            Ok(value)
        } else {
            Err(DecodeError::TrailingEvents(next))
        },
        Err(e) => Err(e),
    }
}

} // verus!
