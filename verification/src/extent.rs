use crate::decode::{
    closing, lemma_views_index, parse_entries, parse_items, parse_value, parse_wrapped, DecodeError,
};
use crate::event::{views, Event, EventView};
use crate::ordered::put;
use crate::variant::VariantView;
use vstd::prelude::*;

verus! {

/// The position after the value that starts at position `at` of `events`.
pub open spec fn extent(events: Seq<EventView>, at: int) -> Result<int, DecodeError> {
    match parse_value(events, at) {
        Ok((_, next)) => Ok(next),
        Err(e) => Err(e),
    }
}

/// Finds the position after the value that starts at position `at`,
/// without building the value. A codec that asks for the parts of a value
/// in its own order finds each part by the end of the part before it.
pub fn value_end(events: &[Event], at: usize) -> (result: Result<usize, DecodeError>)
    ensures
        match result {
            Ok(next) => extent(views(events@), at as int) == Ok::<int, DecodeError>(next as int)
                && at < next <= events.len(),
            Err(e) => extent(views(events@), at as int) == Err::<int, DecodeError>(e),
        },
    decreases events.len() - at, 0int,
{
    proof {
        lemma_views_index(events@);
    }
    if at >= events.len() {
        return Err(DecodeError::UnexpectedEnd);
    }
    match &events[at] {
        Event::Present => value_end(events, at + 1),
        Event::NewtypeStruct { .. } => skip_wrapped(events, at + 1),
        Event::SeqStart { .. } => skip_items(events, at + 1, false),
        Event::TupleStart { .. } => skip_items(events, at + 1, true),
        Event::MapStart { .. } => skip_entries(events, at + 1),
        Event::SeqEnd | Event::TupleEnd | Event::MapEnd => Err(DecodeError::UnexpectedEvent(at)),
        _ => Ok(at + 1),
    }
}

fn skip_wrapped(events: &[Event], at: usize) -> (result: Result<usize, DecodeError>)
    requires
        0 < at <= events.len(),
    ensures
        match result {
            Ok(next) => parse_wrapped(views(events@), at as int) matches Ok(found) && found.1
                == next && at < next <= events.len(),
            Err(e) => parse_wrapped(views(events@), at as int) == Err::<
                (VariantView, int),
                DecodeError,
            >(e),
        },
    decreases events.len() - at, 1int,
{
    proof {
        lemma_views_index(events@);
    }
    if at >= events.len() {
        return Err(DecodeError::UnexpectedEnd);
    }
    let opens = match &events[at] {
        Event::TupleStart { len } => *len == 2,
        _ => false,
    };
    if !opens {
        return Err(DecodeError::UnexpectedEvent(at));
    }
    if at + 1 >= events.len() {
        return Err(DecodeError::UnexpectedEnd);
    }
    match &events[at + 1] {
        Event::Str(_) => match value_end(events, at + 2) {
            Ok(next) => {
                if next >= events.len() {
                    return Err(DecodeError::UnexpectedEnd);
                }
                match &events[next] {
                    Event::TupleEnd => Ok(next + 1),
                    _ => Err(DecodeError::UnexpectedEvent(next)),
                }
            },
            Err(e) => Err(e),
        },
        _ => Err(DecodeError::UnexpectedEvent(at + 1)),
    }
}

fn skip_items(events: &[Event], at: usize, tuple: bool) -> (result: Result<usize, DecodeError>)
    requires
        0 < at <= events.len(),
    ensures
        match result {
            Ok(next) => parse_items(views(events@), at as int, closing(tuple), Seq::empty())
                matches Ok(found) && found.1 == next && at < next <= events.len(),
            Err(e) => parse_items(views(events@), at as int, closing(tuple), Seq::empty()) == Err::<
                (Seq<VariantView>, int),
                DecodeError,
            >(e),
        },
    decreases events.len() - at, 1int,
{
    proof {
        lemma_views_index(events@);
    }
    let ghost mut read: Seq<VariantView> = Seq::empty();
    let mut i: usize = at;
    loop
        invariant
            at <= i <= events.len(),
            views(events@).len() == events.len(),
            forall|k: int| 0 <= k < events.len() ==> #[trigger] views(events@)[k] == events[k]@,
            parse_items(views(events@), at as int, closing(tuple), Seq::empty()) == parse_items(
                views(events@),
                i as int,
                closing(tuple),
                read,
            ),
        decreases events.len() - i,
    {
        if i >= events.len() {
            return Err(DecodeError::UnexpectedEnd);
        }
        let closes = match &events[i] {
            Event::SeqEnd => !tuple,
            Event::TupleEnd => tuple,
            _ => false,
        };
        if closes {
            return Ok(i + 1);
        }
        match value_end(events, i) {
            Ok(next) => {
                proof {
                    read = read.push(parse_value(views(events@), i as int)->Ok_0.0);
                }
                i = next;
            },
            Err(e) => {
                return Err(e);
            },
        }
    }
}

fn skip_entries(events: &[Event], at: usize) -> (result: Result<usize, DecodeError>)
    requires
        0 < at <= events.len(),
    ensures
        match result {
            Ok(next) => parse_entries(views(events@), at as int, Seq::empty()) matches Ok(found)
                && found.1 == next && at < next <= events.len(),
            Err(e) => parse_entries(views(events@), at as int, Seq::empty()) == Err::<
                (Seq<(Seq<char>, VariantView)>, int),
                DecodeError,
            >(e),
        },
    decreases events.len() - at, 1int,
{
    proof {
        lemma_views_index(events@);
    }
    let ghost mut read: Seq<(Seq<char>, VariantView)> = Seq::empty();
    let mut i: usize = at;
    loop
        invariant
            at <= i <= events.len(),
            views(events@).len() == events.len(),
            forall|k: int| 0 <= k < events.len() ==> #[trigger] views(events@)[k] == events[k]@,
            parse_entries(views(events@), at as int, Seq::empty()) == parse_entries(
                views(events@),
                i as int,
                read,
            ),
        decreases events.len() - i,
    {
        if i >= events.len() {
            return Err(DecodeError::UnexpectedEnd);
        }
        match &events[i] {
            Event::MapEnd => {
                return Ok(i + 1);
            },
            Event::Str(key) => match value_end(events, i + 1) {
                Ok(next) => {
                    proof {
                        read = put(read, key@, parse_value(views(events@), i + 1)->Ok_0.0);
                    }
                    i = next;
                },
                Err(e) => {
                    return Err(e);
                },
            },
            _ => {
                return Err(DecodeError::UnexpectedEvent(i));
            },
        }
    }
}

} // verus!
