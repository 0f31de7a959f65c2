use vstd::prelude::*;

verus! {

/// One step of the format-independent event protocol.
///
/// A value is a scalar event, or a run of events that opens, fills and
/// closes a composite. Codecs on either side of a conversion speak in these
/// events: a decoder hands them over in document order, an encoder receives
/// them in the order in which it has to write.
#[derive(Debug, Clone, PartialEq, Eq)]
#[allow(inconsistent_fields)]
pub enum Event {
    Bool(bool),
    I8(i8),
    I16(i16),
    I32(i32),
    I64(i64),
    I128(i128),
    U8(u8),
    U16(u16),
    U32(u32),
    U64(u64),
    U128(u128),
    /// A single-precision float, as its bit pattern.
    F32(u32),
    /// A double-precision float, as its bit pattern.
    F64(u64),
    Char(char),
    Str(String),
    Bytes(Vec<u8>),
    /// An optional value that is not there.
    Absent,
    /// An optional value that is there: the value follows.
    Present,
    Unit,
    /// A named wrapper around one value. The payload follows as a tuple of
    /// two: the wrapped value's type name, then the value.
    NewtypeStruct { name: String },
    /// Opens a tuple, closed by [`Event::TupleEnd`]. `len` is the number of
    /// parts that was announced; like the hints below it decides nothing
    /// when a value is read, but for the payload of a named wrapper.
    TupleStart { len: usize },
    TupleEnd,
    /// Opens a sequence, closed by [`Event::SeqEnd`]. `len` is a hint.
    SeqStart { len: Option<usize> },
    SeqEnd,
    /// Opens a mapping, closed by [`Event::MapEnd`]. Each entry is a
    /// [`Event::Str`] key followed by a value. `len` is a hint.
    MapStart { len: Option<usize> },
    MapEnd,
}

/// The mathematical value that an [`Event`] stands for.
#[allow(inconsistent_fields)]
pub enum EventView {
    Bool(bool),
    I8(i8),
    I16(i16),
    I32(i32),
    I64(i64),
    I128(i128),
    U8(u8),
    U16(u16),
    U32(u32),
    U64(u64),
    U128(u128),
    F32(u32),
    F64(u64),
    Char(char),
    Str(Seq<char>),
    Bytes(Seq<u8>),
    Absent,
    Present,
    Unit,
    NewtypeStruct { name: Seq<char> },
    TupleStart { len: usize },
    TupleEnd,
    SeqStart { len: Option<usize> },
    SeqEnd,
    MapStart { len: Option<usize> },
    MapEnd,
}

impl View for Event {
    type V = EventView;

    open spec fn view(&self) -> EventView {
        match self {
            Event::Bool(v) => EventView::Bool(*v),
            Event::I8(v) => EventView::I8(*v),
            Event::I16(v) => EventView::I16(*v),
            Event::I32(v) => EventView::I32(*v),
            Event::I64(v) => EventView::I64(*v),
            Event::I128(v) => EventView::I128(*v),
            Event::U8(v) => EventView::U8(*v),
            Event::U16(v) => EventView::U16(*v),
            Event::U32(v) => EventView::U32(*v),
            Event::U64(v) => EventView::U64(*v),
            Event::U128(v) => EventView::U128(*v),
            Event::F32(v) => EventView::F32(*v),
            Event::F64(v) => EventView::F64(*v),
            Event::Char(v) => EventView::Char(*v),
            Event::Str(v) => EventView::Str(v@),
            Event::Bytes(v) => EventView::Bytes(v@),
            Event::Absent => EventView::Absent,
            Event::Present => EventView::Present,
            Event::Unit => EventView::Unit,
            Event::NewtypeStruct { name } => EventView::NewtypeStruct { name: name@ },
            Event::TupleStart { len } => EventView::TupleStart { len: *len },
            Event::TupleEnd => EventView::TupleEnd,
            Event::SeqStart { len } => EventView::SeqStart { len: *len },
            Event::SeqEnd => EventView::SeqEnd,
            Event::MapStart { len } => EventView::MapStart { len: *len },
            Event::MapEnd => EventView::MapEnd,
        }
    }
}

/// The views of a run of events, one for one.
pub open spec fn views(events: Seq<Event>) -> Seq<EventView> {
    events.map_values(|e: Event| e@)
}

} // verus!
