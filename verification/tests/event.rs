use xbpf::event::{
    parse_cstr, parse_level, ByteOrder, Event, EventDecodeError, Kind, Level, EVENT_BASE_SIZE,
    EVENT_WITH_FILE_SIZE,
};
use xbpf::map::FromRecord;

/// A string field.
fn field(text: &[u8]) -> Vec<u8> {
    let mut bytes = text.to_vec();
    bytes.resize(128, 0);
    bytes
}

/// A record without a source location, with its integers in the order of this machine.
fn short_record(level: u8, kind: u8, cpu: u16, msg: &[u8]) -> Vec<u8> {
    let mut record = vec![level, kind];
    record.extend(cpu.to_ne_bytes());
    record.extend(field(msg));
    record
}

/// A record with a source location, with its integers in the order of this machine.
fn long_record(level: u8, kind: u8, cpu: u16, msg: &[u8], file: &[u8], line: u32) -> Vec<u8> {
    let mut record = short_record(level, kind, cpu, msg);
    record.extend(field(file));
    record.extend(line.to_ne_bytes());
    record
}

#[test]
fn sizes_are_those_of_the_record() {
    assert_eq!(EVENT_BASE_SIZE, 132);
    assert_eq!(EVENT_WITH_FILE_SIZE, 264);
}

#[test]
fn record_decodes_to_its_event() {
    let record = long_record(3, 0, 0x1234, b"hello \xc3\xa9", b"src/tcp.bpf.c", 0x0102_0304);
    let event = Event::try_from(record.as_slice()).unwrap();
    assert_eq!(
        event,
        Event {
            kind: Kind::Message(Level::INFO),
            content: "hello \u{e9}".to_string(),
            cpu: 0x1234,
            file: Some("src/tcp.bpf.c".to_string()),
            line: Some(0x0102_0304),
        }
    );
    assert_eq!(Event::from_record(&record), Ok(event.clone()));
    assert_eq!(Event::decode_native(&record, true), Ok(event));
}

#[test]
fn byte_order_is_that_asked_for() {
    let mut record = short_record(1, 1, 0, b"x");
    record[2] = 0x01;
    record[3] = 0x02;
    record.extend(field(b"f"));
    record.extend([1, 2, 3, 4]);
    let little = Event::decode(&record, ByteOrder::Little, false).unwrap();
    assert_eq!(little.cpu, 0x0201);
    assert_eq!(little.line, Some(0x0403_0201));
    let big = Event::decode(&record, ByteOrder::Big, false).unwrap();
    assert_eq!(big.cpu, 0x0102);
    assert_eq!(big.line, Some(0x0102_0304));
    assert_eq!(big.kind, Kind::StartSpan(Level::ERROR));
}

#[test]
fn source_location_is_optional() {
    let record = short_record(5, 0, 7, b"no place");
    let event = Event::try_from(record.as_slice()).unwrap();
    assert_eq!(event.kind, Kind::Message(Level::TRACE));
    assert_eq!(event.cpu, 7);
    assert_eq!(event.file, None);
    assert_eq!(event.line, None);
    assert_eq!(
        Event::decode_native(&record, true),
        Err(EventDecodeError::BufferTooShort {
            expected: 264,
            actual: 132,
        })
    );
    let nameless = long_record(5, 0, 7, b"no file", b"", 3);
    let event = Event::try_from(nameless.as_slice()).unwrap();
    assert_eq!(event.file, None);
    assert_eq!(event.line, Some(3));
}

#[test]
fn trailing_bytes_are_ignored() {
    let record = long_record(2, 1, 1, b"span", b"file", 9);
    let mut longer = record.clone();
    longer.extend([0xff; 20]);
    assert_eq!(
        Event::try_from(longer.as_slice()),
        Event::try_from(record.as_slice())
    );
    let mut short = short_record(2, 1, 1, b"span");
    let event = Event::try_from(short.as_slice());
    short.extend([0xff; 131]);
    assert_eq!(Event::try_from(short.as_slice()), event);
}

#[test]
fn end_of_span_takes_any_level() {
    for level in 0..=255 {
        let event = Event::try_from(short_record(level, 2, 0, b"s").as_slice()).unwrap();
        assert_eq!(event.kind, Kind::EndSpan);
    }
}

#[test]
fn unknown_kind_takes_any_level() {
    for level in 0..=255 {
        for kind in 3..=255 {
            assert_eq!(
                Event::try_from(short_record(level, kind, 0, b"s").as_slice()),
                Err(EventDecodeError::InvalidKind(kind))
            );
        }
    }
}

#[test]
fn record_reads_the_same_by_every_way_in() {
    let records = [
        long_record(3, 0, 0x0102, b"m", b"f", 0x0102_0304),
        short_record(1, 1, 0x0102, b"m"),
        short_record(9, 0, 0, b"m"),
        vec![0; 9],
    ];
    for record in records {
        let event = Event::try_from(record.as_slice());
        assert_eq!(Event::try_from(record.as_slice()), event);
        assert_eq!(Event::from_record(&record), event);
        assert_eq!(Event::decode_native(&record, false), event);
    }
}

#[test]
fn written_record_reads_back_whatever_does_not_count() {
    for level in 0..=255 {
        let mut record = long_record(level, 2, 0x0102, b"work", b"a.c", 0x0102_0304);
        record.extend([level; 9]);
        assert_eq!(
            Event::decode_native(&record, true),
            Ok(Event {
                kind: Kind::EndSpan,
                content: "work".to_string(),
                cpu: 0x0102,
                file: Some("a.c".to_string()),
                line: Some(0x0102_0304),
            })
        );
    }
}

#[test]
fn text_fills_its_field() {
    let full = [b'a'; 128];
    let event = Event::try_from(short_record(1, 0, 0, &full).as_slice()).unwrap();
    assert_eq!(event.content.len(), 128);
    let cut = Event::try_from(short_record(1, 0, 0, b"ab\0\xff").as_slice()).unwrap();
    assert_eq!(cut.content, "ab");
}

#[test]
fn failures_are_told_apart() {
    let decode = |record: Vec<u8>| Event::try_from(record.as_slice()).unwrap_err();
    assert_eq!(
        decode(vec![0; 131]),
        EventDecodeError::BufferTooShort {
            expected: 132,
            actual: 131,
        }
    );
    assert_eq!(
        decode(short_record(0, 0, 0, b"x")),
        EventDecodeError::InvalidLevel(0)
    );
    assert_eq!(
        decode(short_record(6, 1, 0, b"x")),
        EventDecodeError::InvalidLevel(6)
    );
    assert_eq!(
        decode(short_record(0, 3, 0, b"x")),
        EventDecodeError::InvalidKind(3)
    );
    assert_eq!(
        decode(short_record(0, 3, 0, b"\xff")),
        EventDecodeError::InvalidUtf8("msg")
    );
    assert_eq!(
        decode(long_record(0, 3, 0, b"x", b"\xc3", 0)),
        EventDecodeError::InvalidUtf8("file")
    );
}

#[test]
fn failures_say_what_is_wrong() {
    assert_eq!(
        EventDecodeError::BufferTooShort {
            expected: 132,
            actual: 7,
        }
        .message(),
        "event buffer too short (expected at least 132 bytes, got 7)"
    );
    assert_eq!(
        EventDecodeError::InvalidLevel(42).message(),
        "invalid log level: 42"
    );
    assert_eq!(
        EventDecodeError::InvalidKind(255).message(),
        "invalid event kind: 255"
    );
    assert_eq!(
        EventDecodeError::InvalidUtf8("file").message(),
        "invalid UTF-8 in file field"
    );
}

#[test]
fn levels_have_their_numbers() {
    assert_eq!(parse_level(1), Ok(Level::ERROR));
    assert_eq!(parse_level(2), Ok(Level::WARN));
    assert_eq!(parse_level(3), Ok(Level::INFO));
    assert_eq!(parse_level(4), Ok(Level::DEBUG));
    assert_eq!(parse_level(5), Ok(Level::TRACE));
    assert_eq!(parse_level(0), Err(EventDecodeError::InvalidLevel(0)));
    assert_eq!(parse_level(6), Err(EventDecodeError::InvalidLevel(6)));
}

#[test]
fn c_strings_end_at_the_first_zero() {
    assert_eq!(parse_cstr(b"abc\0def", "msg"), Ok("abc".to_string()));
    assert_eq!(parse_cstr(b"abc", "msg"), Ok("abc".to_string()));
    assert_eq!(parse_cstr(b"", "msg"), Ok(String::new()));
    assert_eq!(
        parse_cstr(b"\xf0\x9f\x90\x9d", "msg"),
        Ok("\u{1f41d}".to_string())
    );
    assert_eq!(
        parse_cstr(b"a\x80", "msg"),
        Err(EventDecodeError::InvalidUtf8("msg"))
    );
}
