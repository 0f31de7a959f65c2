use varconv::decode::{decode, DecodeError};
use varconv::encode::encode;
use varconv::event::Event;
use varconv::extent::value_end;
use varconv::variant::Variant;

fn assert_tokens(value: &Variant, events: &[Event]) {
    assert_eq!(encode(value), events.to_vec());
    assert_eq!(decode(events), Ok(clone_of(value)));
}

fn clone_of(value: &Variant) -> Variant {
    decode(&encode(value)).unwrap()
}

fn text(s: &str) -> String {
    s.to_string()
}

#[test]
fn each_case_has_its_own_events() {
    assert_tokens(&Variant::Bool(true), &[Event::Bool(true)]);

    assert_tokens(&Variant::I8(-1), &[Event::I8(-1)]);
    assert_tokens(&Variant::I16(-1), &[Event::I16(-1)]);
    assert_tokens(&Variant::I32(-1), &[Event::I32(-1)]);
    assert_tokens(&Variant::I64(-1), &[Event::I64(-1)]);

    assert_tokens(&Variant::U8(1), &[Event::U8(1)]);
    assert_tokens(&Variant::U16(1), &[Event::U16(1)]);
    assert_tokens(&Variant::U32(1), &[Event::U32(1)]);
    assert_tokens(&Variant::U64(1), &[Event::U64(1)]);

    assert_tokens(
        &Variant::F32(0.0f32.to_bits()),
        &[Event::F32(0.0f32.to_bits())],
    );
    assert_tokens(
        &Variant::F64(0.0f64.to_bits()),
        &[Event::F64(0.0f64.to_bits())],
    );
    assert_tokens(&Variant::Char('\n'), &[Event::Char('\n')]);
    assert_tokens(&Variant::Str(text("str")), &[Event::Str(text("str"))]);
    assert_tokens(&Variant::Bytes(vec![0]), &[Event::Bytes(vec![0])]);
    assert_tokens(&Variant::Option(None), &[Event::Absent]);
    assert_eq!(
        decode(&[
            Event::TupleStart { len: 1 },
            Event::Present,
            Event::Unit,
            Event::TupleEnd,
        ]),
        Ok(Variant::Array(vec![Variant::Option(Some(Box::new(
            Variant::Unit
        )))]))
    );
    assert_tokens(
        &Variant::Option(Some(Box::new(Variant::Unit))),
        &[Event::Present, Event::Unit],
    );
    assert_tokens(&Variant::Unit, &[Event::Unit]);
    assert_tokens(
        &Variant::NewtypeStruct(text("Type"), Box::new(Variant::Unit)),
        &[
            Event::NewtypeStruct { name: text("_") },
            Event::TupleStart { len: 2 },
            Event::Str(text("Type")),
            Event::Unit,
            Event::TupleEnd,
        ],
    );
    assert_tokens(
        &Variant::Array(vec![Variant::Unit]),
        &[Event::SeqStart { len: Some(1) }, Event::Unit, Event::SeqEnd],
    );
    assert_tokens(
        &Variant::Mapping(Vec::new()),
        &[Event::MapStart { len: Some(0) }, Event::MapEnd],
    );
}

#[test]
fn wide_integers_keep_case_and_payload() {
    assert_tokens(&Variant::I128(-1), &[Event::I128(-1)]);
    assert_tokens(&Variant::U128(1), &[Event::U128(1)]);
    assert_tokens(&Variant::I8(i8::MAX), &[Event::I8(i8::MAX)]);
    assert_tokens(&Variant::I8(i8::MIN), &[Event::I8(i8::MIN)]);
    assert_tokens(&Variant::I16(i16::MAX), &[Event::I16(i16::MAX)]);
    assert_tokens(&Variant::I32(i32::MAX), &[Event::I32(i32::MAX)]);
    assert_tokens(&Variant::I64(i64::MAX), &[Event::I64(i64::MAX)]);
    assert_tokens(&Variant::I64(i64::MIN), &[Event::I64(i64::MIN)]);
    assert_tokens(&Variant::I128(i128::MAX), &[Event::I128(i128::MAX)]);
    assert_tokens(&Variant::U8(u8::MAX), &[Event::U8(u8::MAX)]);
    assert_tokens(&Variant::U16(u16::MAX), &[Event::U16(u16::MAX)]);
    assert_tokens(&Variant::U32(u32::MAX), &[Event::U32(u32::MAX)]);
    assert_tokens(&Variant::U64(u64::MAX), &[Event::U64(u64::MAX)]);
    assert_tokens(&Variant::U128(u128::MAX), &[Event::U128(u128::MAX)]);
}

#[test]
fn a_64_bit_unsigned_maximum_comes_back_as_the_same_numeral() {
    let events = [Event::U64(18446744073709551615)];
    let value = decode(&events).unwrap();
    assert_eq!(value, Variant::U64(18446744073709551615));
    assert_eq!(encode(&value), events.to_vec());
    match value {
        Variant::U64(n) => assert_eq!(n.to_string(), "18446744073709551615"),
        other => panic!("wrong case: {:?}", other),
    }
}

#[test]
fn an_integer_never_changes_its_width() {
    assert_ne!(decode(&[Event::U8(1)]), Ok(Variant::U16(1)));
    assert_ne!(decode(&[Event::I32(1)]), Ok(Variant::I64(1)));
    assert_ne!(decode(&[Event::U64(1)]), Ok(Variant::I64(1)));
    assert_ne!(encode(&Variant::I64(1)), vec![Event::U64(1)]);
    assert_ne!(encode(&Variant::Char('a')), vec![Event::Str(text("a"))]);
}

#[test]
fn floats_are_carried_bit_for_bit() {
    let nan = f64::NAN.to_bits();
    assert_tokens(&Variant::F64(nan), &[Event::F64(nan)]);
    let negative_zero = (-0.0f32).to_bits();
    assert_tokens(&Variant::F32(negative_zero), &[Event::F32(negative_zero)]);
    assert_ne!(
        decode(&[Event::F32(negative_zero)]),
        Ok(Variant::F32(0.0f32.to_bits()))
    );
    let value = decode(&[Event::F64(1.5f64.to_bits())]).unwrap();
    match value {
        Variant::F64(bits) => assert_eq!(f64::from_bits(bits), 1.5),
        other => panic!("wrong case: {:?}", other),
    }
}

#[test]
fn round_trip_of_a_nested_value() {
    let value = Variant::Mapping(vec![
        (
            text("list"),
            Variant::Array(vec![
                Variant::I8(-3),
                Variant::Option(Some(Box::new(Variant::Option(None)))),
                Variant::Array(vec![]),
                Variant::Bytes(vec![0x00, 0xFF]),
            ]),
        ),
        (
            text("wrapped"),
            Variant::NewtypeStruct(
                text("Meters"),
                Box::new(Variant::F64(2.5f64.to_bits())),
            ),
        ),
        (
            text("inner"),
            Variant::Mapping(vec![(text("list"), Variant::Unit)]),
        ),
        (text(""), Variant::Str(text("\u{e9}\u{1F600}"))),
    ]);
    let events = encode(&value);
    assert_eq!(events.len(), 24);
    assert_eq!(decode(&events), Ok(value));
}

#[test]
fn encoding_lists_every_event_in_order() {
    let value = Variant::Array(vec![
        Variant::Mapping(vec![
            (text("k"), Variant::U8(7)),
            (text("l"), Variant::Option(Some(Box::new(Variant::Char('x'))))),
        ]),
        Variant::Str(text("s")),
    ]);
    assert_eq!(
        encode(&value),
        vec![
            Event::SeqStart { len: Some(2) },
            Event::MapStart { len: Some(2) },
            Event::Str(text("k")),
            Event::U8(7),
            Event::Str(text("l")),
            Event::Present,
            Event::Char('x'),
            Event::MapEnd,
            Event::Str(text("s")),
            Event::SeqEnd,
        ]
    );
}

#[test]
fn keys_keep_the_order_of_the_document() {
    let events = [
        Event::MapStart { len: None },
        Event::Str(text("c")),
        Event::U8(1),
        Event::Str(text("a")),
        Event::U8(2),
        Event::Str(text("b")),
        Event::U8(3),
        Event::MapEnd,
    ];
    let value = decode(&events).unwrap();
    assert_eq!(
        value,
        Variant::Mapping(vec![
            (text("c"), Variant::U8(1)),
            (text("a"), Variant::U8(2)),
            (text("b"), Variant::U8(3)),
        ])
    );
    let keys: Vec<Event> = encode(&value)
        .into_iter()
        .filter(|e| matches!(e, Event::Str(_)))
        .collect();
    assert_eq!(
        keys,
        vec![
            Event::Str(text("c")),
            Event::Str(text("a")),
            Event::Str(text("b"))
        ]
    );
}

#[test]
fn a_key_that_comes_again_replaces_the_first_and_stands_last() {
    let events = [
        Event::MapStart { len: Some(3) },
        Event::Str(text("a")),
        Event::U8(1),
        Event::Str(text("b")),
        Event::U8(2),
        Event::Str(text("a")),
        Event::U8(3),
        Event::MapEnd,
    ];
    assert_eq!(
        decode(&events),
        Ok(Variant::Mapping(vec![
            (text("b"), Variant::U8(2)),
            (text("a"), Variant::U8(3)),
        ]))
    );
}

#[test]
fn a_mapping_without_a_hint_is_built_the_same() {
    let with_hint = [
        Event::MapStart { len: Some(2) },
        Event::Str(text("x")),
        Event::Unit,
        Event::Str(text("y")),
        Event::Bool(false),
        Event::MapEnd,
    ];
    let mut without_hint = with_hint.to_vec();
    without_hint[0] = Event::MapStart { len: None };
    let expected = Variant::Mapping(vec![
        (text("x"), Variant::Unit),
        (text("y"), Variant::Bool(false)),
    ]);
    assert_eq!(decode(&with_hint), Ok(clone_of(&expected)));
    assert_eq!(decode(&without_hint), Ok(expected));
}

#[test]
fn hints_decide_nothing() {
    let huge = [
        Event::SeqStart {
            len: Some(usize::MAX),
        },
        Event::Unit,
        Event::SeqEnd,
    ];
    assert_eq!(decode(&huge), Ok(Variant::Array(vec![Variant::Unit])));
    let short = [
        Event::SeqStart { len: Some(0) },
        Event::Unit,
        Event::Unit,
        Event::SeqEnd,
    ];
    assert_eq!(
        decode(&short),
        Ok(Variant::Array(vec![Variant::Unit, Variant::Unit]))
    );
    let map = [
        Event::MapStart {
            len: Some(usize::MAX),
        },
        Event::Str(text("k")),
        Event::Unit,
        Event::MapEnd,
    ];
    assert_eq!(
        decode(&map),
        Ok(Variant::Mapping(vec![(text("k"), Variant::Unit)]))
    );
    let tuple = [
        Event::TupleStart { len: 5 },
        Event::Bool(true),
        Event::TupleEnd,
    ];
    assert_eq!(decode(&tuple), Ok(Variant::Array(vec![Variant::Bool(true)])));
}

#[test]
fn a_long_mapping_grows_past_the_room_set_aside() {
    let n: usize = 5000;
    let mut events = vec![Event::MapStart { len: Some(n) }];
    let mut expected = Vec::new();
    for i in 0..n {
        events.push(Event::Str(format!("k{}", i)));
        events.push(Event::U64(i as u64));
        expected.push((format!("k{}", i), Variant::U64(i as u64)));
    }
    events.push(Event::MapEnd);
    assert_eq!(decode(&events), Ok(Variant::Mapping(expected)));
}

#[test]
fn absent_is_not_null() {
    let absent = decode(&[Event::Absent]).unwrap();
    let null = decode(&[Event::Unit]).unwrap();
    assert_eq!(absent, Variant::Option(None));
    assert_eq!(null, Variant::Unit);
    assert_ne!(absent, null);
    assert_ne!(encode(&absent), encode(&null));
    let present_null = decode(&[Event::Present, Event::Unit]).unwrap();
    assert_eq!(present_null, Variant::Option(Some(Box::new(Variant::Unit))));
    assert_ne!(present_null, absent);
    assert_ne!(present_null, null);
}

#[test]
fn bytes_are_never_read_as_text() {
    let value = Variant::Bytes(vec![0x00, 0xFF]);
    let first = encode(&value);
    let second = encode(&value);
    assert_eq!(first, vec![Event::Bytes(vec![0x00, 0xFF])]);
    assert_eq!(first, second);
    assert_eq!(decode(&first), Ok(value));
    assert_ne!(
        decode(&[Event::Bytes(vec![b'a'])]),
        Ok(Variant::Str(text("a")))
    );
}

#[test]
fn the_name_of_a_wrapper_event_is_not_read() {
    let events = [
        Event::NewtypeStruct {
            name: text("anything"),
        },
        Event::TupleStart { len: 2 },
        Event::Str(text("Type")),
        Event::I16(4),
        Event::TupleEnd,
    ];
    assert_eq!(
        decode(&events),
        Ok(Variant::NewtypeStruct(text("Type"), Box::new(Variant::I16(4))))
    );
}

#[test]
fn events_that_end_early_are_reported() {
    assert_eq!(decode(&[]), Err(DecodeError::UnexpectedEnd));
    assert_eq!(decode(&[Event::Present]), Err(DecodeError::UnexpectedEnd));
    assert_eq!(
        decode(&[Event::SeqStart { len: None }, Event::Unit]),
        Err(DecodeError::UnexpectedEnd)
    );
    assert_eq!(
        decode(&[Event::MapStart { len: None }, Event::Str(text("k"))]),
        Err(DecodeError::UnexpectedEnd)
    );
    assert_eq!(
        decode(&[Event::NewtypeStruct { name: text("_") }]),
        Err(DecodeError::UnexpectedEnd)
    );
    assert_eq!(
        decode(&[
            Event::NewtypeStruct { name: text("_") },
            Event::TupleStart { len: 2 }
        ]),
        Err(DecodeError::UnexpectedEnd)
    );
    assert_eq!(
        decode(&[
            Event::NewtypeStruct { name: text("_") },
            Event::TupleStart { len: 2 },
            Event::Str(text("T")),
            Event::Unit,
        ]),
        Err(DecodeError::UnexpectedEnd)
    );
}

#[test]
fn events_out_of_place_are_reported_with_their_position() {
    assert_eq!(
        decode(&[Event::SeqEnd]),
        Err(DecodeError::UnexpectedEvent(0))
    );
    assert_eq!(
        decode(&[Event::SeqStart { len: None }, Event::TupleEnd]),
        Err(DecodeError::UnexpectedEvent(1))
    );
    assert_eq!(
        decode(&[Event::TupleStart { len: 0 }, Event::SeqEnd]),
        Err(DecodeError::UnexpectedEvent(1))
    );
    assert_eq!(
        decode(&[Event::SeqStart { len: None }, Event::Unit, Event::MapEnd]),
        Err(DecodeError::UnexpectedEvent(2))
    );
    assert_eq!(
        decode(&[Event::MapStart { len: None }, Event::U8(1), Event::Unit, Event::MapEnd]),
        Err(DecodeError::UnexpectedEvent(1))
    );
    assert_eq!(
        decode(&[Event::MapStart { len: None }, Event::SeqEnd]),
        Err(DecodeError::UnexpectedEvent(1))
    );
    assert_eq!(
        decode(&[
            Event::MapStart { len: None },
            Event::Str(text("k")),
            Event::MapEnd
        ]),
        Err(DecodeError::UnexpectedEvent(2))
    );
    assert_eq!(
        decode(&[Event::NewtypeStruct { name: text("_") }, Event::Unit]),
        Err(DecodeError::UnexpectedEvent(1))
    );
    assert_eq!(
        decode(&[
            Event::NewtypeStruct { name: text("_") },
            Event::TupleStart { len: 3 },
            Event::Str(text("T")),
            Event::Unit,
            Event::TupleEnd,
        ]),
        Err(DecodeError::UnexpectedEvent(1))
    );
    assert_eq!(
        decode(&[
            Event::NewtypeStruct { name: text("_") },
            Event::TupleStart { len: 2 },
            Event::Unit,
            Event::Unit,
            Event::TupleEnd,
        ]),
        Err(DecodeError::UnexpectedEvent(2))
    );
    assert_eq!(
        decode(&[
            Event::NewtypeStruct { name: text("_") },
            Event::TupleStart { len: 2 },
            Event::Str(text("T")),
            Event::Unit,
            Event::Unit,
            Event::TupleEnd,
        ]),
        Err(DecodeError::UnexpectedEvent(4))
    );
}

#[test]
fn events_after_the_value_are_reported() {
    assert_eq!(
        decode(&[Event::Unit, Event::Unit]),
        Err(DecodeError::TrailingEvents(1))
    );
    assert_eq!(
        decode(&[
            Event::SeqStart { len: None },
            Event::SeqEnd,
            Event::SeqEnd
        ]),
        Err(DecodeError::TrailingEvents(2))
    );
}

#[test]
fn the_first_error_is_the_one_reported() {
    assert_eq!(
        decode(&[
            Event::SeqStart { len: None },
            Event::MapEnd,
            Event::TupleEnd,
            Event::SeqEnd,
            Event::Unit,
        ]),
        Err(DecodeError::UnexpectedEvent(1))
    );
}

#[test]
fn a_json_document_becomes_a_structured_document() {
    // {"a":1,"b":[true,null]} as a JSON reader reports it.
    let read = [
        Event::MapStart { len: None },
        Event::Str(text("a")),
        Event::U64(1),
        Event::Str(text("b")),
        Event::SeqStart { len: None },
        Event::Bool(true),
        Event::Unit,
        Event::SeqEnd,
        Event::MapEnd,
    ];
    let value = decode(&read).unwrap();
    assert_eq!(
        value,
        Variant::Mapping(vec![
            (text("a"), Variant::U64(1)),
            (
                text("b"),
                Variant::Array(vec![Variant::Bool(true), Variant::Unit])
            ),
        ])
    );
    let written = encode(&value);
    assert_eq!(
        written,
        vec![
            Event::MapStart { len: Some(2) },
            Event::Str(text("a")),
            Event::U64(1),
            Event::Str(text("b")),
            Event::SeqStart { len: Some(2) },
            Event::Bool(true),
            Event::Unit,
            Event::SeqEnd,
            Event::MapEnd,
        ]
    );
    // Written and read again, the document is the same.
    assert_eq!(decode(&written), Ok(value));
}

#[test]
fn the_end_of_each_part_is_found_without_building_it() {
    let events = [
        Event::SeqStart { len: Some(3) },
        Event::U8(1),
        Event::MapStart { len: Some(1) },
        Event::Str(text("k")),
        Event::Present,
        Event::Unit,
        Event::MapEnd,
        Event::NewtypeStruct { name: text("_") },
        Event::TupleStart { len: 2 },
        Event::Str(text("T")),
        Event::Bool(true),
        Event::TupleEnd,
        Event::SeqEnd,
    ];
    assert_eq!(value_end(&events, 0), Ok(13));
    assert_eq!(value_end(&events, 1), Ok(2));
    assert_eq!(value_end(&events, 2), Ok(7));
    assert_eq!(value_end(&events, 3), Ok(4));
    assert_eq!(value_end(&events, 4), Ok(6));
    assert_eq!(value_end(&events, 5), Ok(6));
    assert_eq!(value_end(&events, 7), Ok(12));
    assert_eq!(value_end(&events, 8), Ok(12));
    assert_eq!(value_end(&events, 10), Ok(11));
}

#[test]
fn no_value_ends_where_none_starts() {
    let events = [
        Event::SeqStart { len: None },
        Event::Unit,
        Event::SeqEnd,
        Event::MapStart { len: None },
        Event::U8(1),
    ];
    assert_eq!(value_end(&events, 2), Err(DecodeError::UnexpectedEvent(2)));
    assert_eq!(value_end(&events, 3), Err(DecodeError::UnexpectedEvent(4)));
    assert_eq!(value_end(&events, 5), Err(DecodeError::UnexpectedEnd));
    assert_eq!(value_end(&events, 99), Err(DecodeError::UnexpectedEnd));
    assert_eq!(value_end(&[], 0), Err(DecodeError::UnexpectedEnd));
    assert_eq!(
        value_end(&[Event::TupleStart { len: 1 }, Event::Unit, Event::SeqEnd], 0),
        Err(DecodeError::UnexpectedEvent(2))
    );
    assert_eq!(
        value_end(
            &[
                Event::NewtypeStruct { name: text("_") },
                Event::TupleStart { len: 2 },
                Event::Str(text("T")),
                Event::Unit,
                Event::SeqEnd,
            ],
            0
        ),
        Err(DecodeError::UnexpectedEvent(4))
    );
}

#[test]
fn the_end_of_a_value_is_where_decoding_stops() {
    let value = Variant::Array(vec![
        Variant::Mapping(vec![(text("a"), Variant::Array(vec![Variant::Unit]))]),
        Variant::Option(Some(Box::new(Variant::I64(5)))),
    ]);
    let mut events = encode(&value);
    assert_eq!(value_end(&events, 0), Ok(events.len()));
    events.push(Event::Unit);
    let end = value_end(&events, 0).unwrap();
    assert_eq!(decode(&events), Err(DecodeError::TrailingEvents(end)));
    assert_eq!(decode(&events[..end]), Ok(value));
}

#[test]
fn a_mapping_is_built_from_its_entries_in_order() {
    assert_eq!(Variant::mapping(Vec::new()), Variant::Mapping(Vec::new()));
    assert_eq!(
        Variant::mapping(vec![
            (text("c"), Variant::U8(1)),
            (text("a"), Variant::U8(2)),
            (text("b"), Variant::U8(3)),
        ]),
        Variant::Mapping(vec![
            (text("c"), Variant::U8(1)),
            (text("a"), Variant::U8(2)),
            (text("b"), Variant::U8(3)),
        ])
    );
}

#[test]
fn a_mapping_built_with_a_repeated_key_keeps_the_last_entry() {
    assert_eq!(
        Variant::mapping(vec![
            (text("a"), Variant::U8(1)),
            (text("b"), Variant::U8(2)),
            (text("a"), Variant::U8(3)),
            (text("c"), Variant::U8(4)),
            (text("b"), Variant::U8(5)),
        ]),
        Variant::Mapping(vec![
            (text("a"), Variant::U8(3)),
            (text("c"), Variant::U8(4)),
            (text("b"), Variant::U8(5)),
        ])
    );
}

#[test]
fn building_a_mapping_agrees_with_reading_one() {
    let pairs = || {
        vec![
            (text("x"), Variant::Bool(true)),
            (text("y"), Variant::Array(vec![Variant::Unit])),
            (text("x"), Variant::Str(text("again"))),
        ]
    };
    let mut events = vec![Event::MapStart { len: None }];
    for (key, value) in pairs() {
        events.push(Event::Str(key));
        events.extend(encode(&value));
    }
    events.push(Event::MapEnd);
    assert_eq!(decode(&events), Ok(Variant::mapping(pairs())));
}

#[test]
fn a_long_mapping_is_built_past_the_room_set_aside() {
    let n: usize = 5000;
    let mut given = Vec::new();
    let mut expected = Vec::new();
    for i in 0..n {
        given.push((format!("k{}", i), Variant::U64(i as u64)));
        expected.push((format!("k{}", i), Variant::U64(i as u64)));
    }
    assert_eq!(Variant::mapping(given), Variant::Mapping(expected));
}

#[test]
fn a_value_built_by_hand_with_a_repeated_key_does_not_come_back() {
    let value = Variant::Mapping(vec![
        (text("a"), Variant::U8(1)),
        (text("a"), Variant::U8(2)),
    ]);
    assert_eq!(
        decode(&encode(&value)),
        Ok(Variant::Mapping(vec![(text("a"), Variant::U8(2))]))
    );
}

#[test]
fn a_value_is_well_formed_if_no_mapping_repeats_a_key() {
    assert!(Variant::Unit.is_well_formed());
    assert!(Variant::Mapping(Vec::new()).is_well_formed());
    assert!(Variant::Mapping(vec![
        (text("a"), Variant::U8(1)),
        (text("b"), Variant::U8(1)),
        (text("A"), Variant::U8(1)),
        (text(""), Variant::U8(1)),
    ])
    .is_well_formed());
    assert!(!Variant::Mapping(vec![
        (text("a"), Variant::U8(1)),
        (text("b"), Variant::U8(2)),
        (text("a"), Variant::U8(3)),
    ])
    .is_well_formed());
    assert!(!Variant::Mapping(vec![
        (text(""), Variant::Unit),
        (text(""), Variant::Unit),
    ])
    .is_well_formed());
}

#[test]
fn a_repeated_key_is_found_at_any_depth() {
    let bad = || {
        Variant::Mapping(vec![
            (text("k"), Variant::Unit),
            (text("k"), Variant::Unit),
        ])
    };
    assert!(!Variant::Array(vec![Variant::Unit, bad()]).is_well_formed());
    assert!(!Variant::Option(Some(Box::new(bad()))).is_well_formed());
    assert!(!Variant::NewtypeStruct(text("T"), Box::new(bad())).is_well_formed());
    assert!(!Variant::Mapping(vec![(text("a"), Variant::Unit), (text("b"), bad())])
        .is_well_formed());
    assert!(
        !Variant::Array(vec![Variant::Array(vec![Variant::Option(Some(Box::new(
            bad()
        )))])])
        .is_well_formed()
    );
    let good = Variant::Mapping(vec![
        (
            text("k"),
            Variant::Mapping(vec![(text("k"), Variant::Unit)]),
        ),
        (text("l"), Variant::Array(vec![Variant::Option(None)])),
    ]);
    assert!(good.is_well_formed());
}

#[test]
fn what_was_decoded_or_built_is_well_formed() {
    let events = [
        Event::MapStart { len: None },
        Event::Str(text("a")),
        Event::U8(1),
        Event::Str(text("a")),
        Event::MapStart { len: None },
        Event::Str(text("b")),
        Event::Unit,
        Event::Str(text("b")),
        Event::Unit,
        Event::MapEnd,
        Event::MapEnd,
    ];
    assert!(decode(&events).unwrap().is_well_formed());
    let built = Variant::mapping(vec![
        (text("a"), Variant::Unit),
        (text("a"), Variant::Unit),
    ]);
    assert!(built.is_well_formed());
}
