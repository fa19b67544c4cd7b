//! Events that eBPF programs write to the tracing ring buffer.
use crate::text::{decimal, decimal_text};
use vstd::prelude::*;
use vstd::string::*;
use vstd::utf8::{decode_utf8, encode_utf8, valid_utf8};

verus! {

/// Size of a string field of a record, in bytes.
pub const BPF_TRACING_STR_LEN: usize = 128;

/// Size of a record that carries no source location.
pub const EVENT_BASE_SIZE: usize = 4 + BPF_TRACING_STR_LEN;

/// Size of a record that carries a source location.
pub const EVENT_WITH_FILE_SIZE: usize = EVENT_BASE_SIZE + BPF_TRACING_STR_LEN + 4;

/// Verbosity of an event, from the least verbose to the most verbose.
#[derive(Debug, Clone, Copy, PartialEq, Eq, Hash, Structural)]
pub enum Level {
    ERROR,
    WARN,
    INFO,
    DEBUG,
    TRACE,
}

/// Why a record does not decode.
#[derive(Debug, Clone, PartialEq, Eq)]
pub enum EventDecodeError {
    BufferTooShort { expected: usize, actual: usize },
    InvalidLevel(u8),
    InvalidKind(u8),
    InvalidUtf8(&'static str),
}

/// What an [`EventDecodeError`] says to a reader.
pub open spec fn error_text(e: EventDecodeError) -> Seq<char> {
    match e {
        EventDecodeError::BufferTooShort { expected, actual } => {
            "event buffer too short (expected at least "@ + decimal_text(expected as nat)
                + " bytes, got "@ + decimal_text(actual as nat) + ")"@
        },
        EventDecodeError::InvalidLevel(level) => "invalid log level: "@ + decimal_text(level as nat),
        EventDecodeError::InvalidKind(kind) => "invalid event kind: "@ + decimal_text(kind as nat),
        EventDecodeError::InvalidUtf8(field) => "invalid UTF-8 in "@ + field@ + " field"@,
    }
}

impl EventDecodeError {
    /// What the error says to a reader.
    pub fn message(&self) -> (r: String)
        ensures
            r@ == error_text(*self),
    {
        match self {
            EventDecodeError::BufferTooShort { expected, actual } => {
                "event buffer too short (expected at least ".to_owned().concat(
                    decimal(*expected).as_str(),
                ).concat(" bytes, got ").concat(decimal(*actual).as_str()).concat(")")
            },
            EventDecodeError::InvalidLevel(level) => {
                "invalid log level: ".to_owned().concat(decimal(*level as usize).as_str())
            },
            EventDecodeError::InvalidKind(kind) => {
                "invalid event kind: ".to_owned().concat(decimal(*kind as usize).as_str())
            },
            EventDecodeError::InvalidUtf8(field) => {
                "invalid UTF-8 in ".to_owned().concat(field).concat(" field")
            },
        }
    }
}

/// What an event reports.
#[derive(Debug, Clone, PartialEq, Eq, Hash, Structural)]
pub enum Kind {
    Message(Level),
    StartSpan(Level),
    EndSpan,
}

/// One decoded record.
#[derive(Debug, Clone, PartialEq, Eq, Hash)]
pub struct Event {
    pub kind: Kind,
    pub content: String,
    pub cpu: usize,
    pub file: Option<String>,
    pub line: Option<u32>,
}

/// The mathematical value of an [`Event`].
#[verifier::ext_equal]
pub struct EventView {
    pub kind: Kind,
    pub content: Seq<char>,
    pub cpu: nat,
    pub file: Option<Seq<char>>,
    pub line: Option<u32>,
}

/// The characters of an optional string.
pub open spec fn optional_text(s: Option<String>) -> Option<Seq<char>> {
    match s {
        Some(s) => Some(s@),
        None => None,
    }
}

impl View for Event {
    type V = EventView;

    open spec fn view(&self) -> EventView {
        EventView {
            kind: self.kind,
            content: self.content@,
            cpu: self.cpu as nat,
            file: optional_text(self.file),
            line: self.line,
        }
    }
}

/// The level that a level byte stands for.
pub open spec fn level_of(level: u8) -> Option<Level> {
    match level {
        1 => Some(Level::ERROR),
        2 => Some(Level::WARN),
        3 => Some(Level::INFO),
        4 => Some(Level::DEBUG),
        5 => Some(Level::TRACE),
        _ => None,
    }
}

/// The level that a level byte stands for, or the byte itself as the error.
pub fn parse_level(level: u8) -> (r: Result<Level, EventDecodeError>)
    ensures
        match level_of(level) {
            Some(l) => r == Ok::<Level, EventDecodeError>(l),
            None => r == Err::<Level, EventDecodeError>(EventDecodeError::InvalidLevel(level)),
        },
{
    match level {
        1 => Ok(Level::ERROR),
        2 => Ok(Level::WARN),
        3 => Ok(Level::INFO),
        4 => Ok(Level::DEBUG),
        5 => Ok(Level::TRACE),
        other => Err(EventDecodeError::InvalidLevel(other)),
    }
}

/// The bytes in front of the first zero byte, or all of them where there is none.
pub open spec fn c_string(bytes: Seq<u8>) -> Seq<u8> {
    match bytes.index_of_first(0u8) {
        Some(i) => bytes.take(i),
        None => bytes,
    }
}

/// Calls `core::str::from_utf8`: the text that `bytes` encode, exactly where they are
/// valid UTF-8. Which byte is the first bad one is not passed on.
#[verifier::external_body]
fn str_from_utf8(bytes: &[u8]) -> (r: Option<&str>)
    ensures
        r is Some <==> valid_utf8(bytes@),
        r matches Some(s) ==> s@ == decode_utf8(bytes@),
{
    core::str::from_utf8(bytes).ok()
}

/// The text of a string field: what stands in front of the first zero byte.
pub fn parse_cstr(bytes: &[u8], field: &'static str) -> (r: Result<String, EventDecodeError>)
    ensures
        match r {
            Ok(s) => valid_utf8(c_string(bytes@)) && s@ == decode_utf8(c_string(bytes@)),
            Err(e) => !valid_utf8(c_string(bytes@)) && e == EventDecodeError::InvalidUtf8(field),
        },
{
    let mut end: usize = 0;
    while end < bytes.len() && bytes[end] != 0
        invariant
            end <= bytes@.len(),
            forall|i: int| 0 <= i < end ==> bytes@[i] != 0,
        decreases bytes@.len() - end,
    {
        end += 1;
    }
    proof {
        bytes@.index_of_first_ensures(0u8);
        assert(bytes@.take(end as int) == c_string(bytes@));
    }
    match str_from_utf8(&bytes[0..end]) {
        Some(s) => Ok(s.to_owned()),
        None => Err(EventDecodeError::InvalidUtf8(field)),
    }
}

/// Order of the bytes of an integer field.
#[derive(Debug, Clone, Copy, PartialEq, Eq, Structural)]
pub enum ByteOrder {
    Little,
    Big,
}

/// The number that two bytes hold in the given order.
pub open spec fn u16_value(bytes: Seq<u8>, order: ByteOrder) -> nat {
    match order {
        ByteOrder::Little => (bytes[0] + 0x100 * bytes[1]) as nat,
        ByteOrder::Big => (bytes[1] + 0x100 * bytes[0]) as nat,
    }
}

/// The number that four bytes hold in the given order.
pub open spec fn u32_value(bytes: Seq<u8>, order: ByteOrder) -> nat {
    match order {
        ByteOrder::Little => (bytes[0] + 0x100 * bytes[1] + 0x1_0000 * bytes[2] + 0x100_0000
            * bytes[3]) as nat,
        ByteOrder::Big => (bytes[3] + 0x100 * bytes[2] + 0x1_0000 * bytes[1] + 0x100_0000
            * bytes[0]) as nat,
    }
}

/// The byte order of the machine. Which of the two it is depends on the machine and is left open.
pub open spec fn native_order() -> ByteOrder {
    match vstd::endian::endianness() {
        vstd::endian::Endian::Little => ByteOrder::Little,
        vstd::endian::Endian::Big => ByteOrder::Big,
    }
}

/// Calls `u16::from_ne_bytes`: the number that the two bytes hold in the byte order of the
/// machine, which is the same in every call.
#[verifier::external_body]
fn u16_from_ne_bytes(bytes: [u8; 2]) -> (r: u16)
    ensures
        r == u16_value(bytes@, native_order()),
{
    u16::from_ne_bytes(bytes)
}

/// The byte order of the machine: the one in which it reads the bytes 1 and 0, which hold another
/// number in each order.
fn native_byte_order() -> (order: ByteOrder)
    ensures
        order == native_order(),
{
    let bytes: [u8; 2] = [1, 0];
    let r: u16 = u16_from_ne_bytes(bytes);
    if r == 1 {
        ByteOrder::Little
    } else {
        ByteOrder::Big
    }
}

/// The bytes of the CPU field of a record.
pub open spec fn cpu_field(buf: Seq<u8>) -> Seq<u8> {
    buf.subrange(2, 4)
}

/// The bytes of the message field of a record.
pub open spec fn msg_field(buf: Seq<u8>) -> Seq<u8> {
    buf.subrange(4, EVENT_BASE_SIZE as int)
}

/// The bytes of the file field of a record that carries a source location.
pub open spec fn file_field(buf: Seq<u8>) -> Seq<u8> {
    buf.subrange(EVENT_BASE_SIZE as int, EVENT_BASE_SIZE + BPF_TRACING_STR_LEN)
}

/// The bytes of the line field of a record that carries a source location.
pub open spec fn line_field(buf: Seq<u8>) -> Seq<u8> {
    buf.subrange(EVENT_BASE_SIZE + BPF_TRACING_STR_LEN, EVENT_WITH_FILE_SIZE as int)
}

/// Whether a record is long enough to carry a source location.
pub open spec fn has_source_loc(buf: Seq<u8>) -> bool {
    buf.len() >= EVENT_WITH_FILE_SIZE
}

/// Why a record does not decode: the first of the checks that it fails, or `None` where it
/// passes them all.
pub open spec fn decode_failure(buf: Seq<u8>, require_source_loc: bool) -> Option<
    EventDecodeError,
> {
    if buf.len() < EVENT_BASE_SIZE {
        Some(
            EventDecodeError::BufferTooShort {
                expected: EVENT_BASE_SIZE,
                actual: buf.len() as usize,
            },
        )
    } else if !valid_utf8(c_string(msg_field(buf))) {
        Some(EventDecodeError::InvalidUtf8("msg"))
    } else if require_source_loc && !has_source_loc(buf) {
        Some(
            EventDecodeError::BufferTooShort {
                expected: EVENT_WITH_FILE_SIZE,
                actual: buf.len() as usize,
            },
        )
    } else if has_source_loc(buf) && !valid_utf8(c_string(file_field(buf))) {
        Some(EventDecodeError::InvalidUtf8("file"))
    } else if buf[1] > 2 {
        Some(EventDecodeError::InvalidKind(buf[1]))
    } else if buf[1] < 2 && level_of(buf[0]) is None {
        Some(EventDecodeError::InvalidLevel(buf[0]))
    } else {
        None
    }
}

/// What a record reports.
pub open spec fn decoded_kind(buf: Seq<u8>) -> Kind {
    if buf[1] == 0 {
        Kind::Message(level_of(buf[0])->0)
    } else if buf[1] == 1 {
        Kind::StartSpan(level_of(buf[0])->0)
    } else {
        Kind::EndSpan
    }
}

/// The file that a record names: an empty name stands for none.
pub open spec fn decoded_file(buf: Seq<u8>) -> Option<Seq<char>> {
    let file = decode_utf8(c_string(file_field(buf)));
    if has_source_loc(buf) && file.len() > 0 {
        Some(file)
    } else {
        None
    }
}

/// The event that a record without a failure stands for.
pub open spec fn decoded(buf: Seq<u8>, order: ByteOrder) -> EventView {
    EventView {
        kind: decoded_kind(buf),
        content: decode_utf8(c_string(msg_field(buf))),
        cpu: u16_value(cpu_field(buf), order),
        file: decoded_file(buf),
        line: if has_source_loc(buf) {
            Some(u32_value(line_field(buf), order) as u32)
        } else {
            None
        },
    }
}

/// Whether `r` is what decoding a record gives.
pub open spec fn decodes_to(
    buf: Seq<u8>,
    order: ByteOrder,
    require_source_loc: bool,
    r: Result<Event, EventDecodeError>,
) -> bool {
    match decode_failure(buf, require_source_loc) {
        Some(e) => r == Err::<Event, EventDecodeError>(e),
        None => r is Ok && r->Ok_0@ == decoded(buf, order),
    }
}

/// Whether two decodings come to the same: the same event, or the same error.
pub open spec fn same_outcome(
    a: Result<Event, EventDecodeError>,
    b: Result<Event, EventDecodeError>,
) -> bool {
    match (a, b) {
        (Ok(a), Ok(b)) => a@ == b@,
        (Err(a), Err(b)) => a == b,
        _ => false,
    }
}

impl Event {
    /// Decodes a record whose integers stand in the given byte order. With
    /// `require_source_loc`, a record without a source location is refused.
    pub fn decode(buf: &[u8], order: ByteOrder, require_source_loc: bool) -> (r: Result<
        Event,
        EventDecodeError,
    >)
        ensures
            decodes_to(buf@, order, require_source_loc, r),
    {
        if buf.len() < EVENT_BASE_SIZE {
            return Err(
                EventDecodeError::BufferTooShort { expected: EVENT_BASE_SIZE, actual: buf.len() },
            );
        }
        let level_raw: u8 = buf[0];
        let kind_raw: u8 = buf[1];
        let cpu: usize = match order {
            ByteOrder::Little => buf[2] as usize + 0x100 * (buf[3] as usize),
            ByteOrder::Big => buf[3] as usize + 0x100 * (buf[2] as usize),
        };

        let msg_start: usize = 4;
        let msg_end: usize = msg_start + BPF_TRACING_STR_LEN;
        let msg = match parse_cstr(&buf[msg_start..msg_end], "msg") {
            Ok(msg) => msg,
            Err(e) => return Err(e),
        };

        let has_file = buf.len() >= EVENT_WITH_FILE_SIZE;
        if require_source_loc && !has_file {
            return Err(
                EventDecodeError::BufferTooShort {
                    expected: EVENT_WITH_FILE_SIZE,
                    actual: buf.len(),
                },
            );
        }
        let (file, line): (Option<String>, Option<u32>) = if has_file {
            let file_start: usize = msg_end;
            let file_end: usize = file_start + BPF_TRACING_STR_LEN;
            let file = match parse_cstr(&buf[file_start..file_end], "file") {
                Ok(file) => file,
                Err(e) => return Err(e),
            };
            let line_start: usize = file_end;
            let line_bytes = &buf[line_start..line_start + 4];
            let line: u32 = match order {
                ByteOrder::Little => line_bytes[0] as u32 + 0x100 * (line_bytes[1] as u32)
                    + 0x1_0000 * (line_bytes[2] as u32) + 0x100_0000 * (line_bytes[3] as u32),
                ByteOrder::Big => line_bytes[3] as u32 + 0x100 * (line_bytes[2] as u32) + 0x1_0000
                    * (line_bytes[1] as u32) + 0x100_0000 * (line_bytes[0] as u32),
            };
            let file = if file.as_str().is_empty() {
                None
            } else {
                Some(file)
            };
            (file, Some(line))
        } else {
            (None, None)
        };

        let kind = match kind_raw {
            0 => match parse_level(level_raw) {
                Ok(level) => Kind::Message(level),
                Err(e) => return Err(e),
            },
            1 => match parse_level(level_raw) {
                Ok(level) => Kind::StartSpan(level),
                Err(e) => return Err(e),
            },
            2 => Kind::EndSpan,
            other => return Err(EventDecodeError::InvalidKind(other)),
        };

        Ok(Event { kind, content: msg, cpu, file, line })
    }

    /// Decodes a record that was written on this machine. All its integers stand in the byte
    /// order of the machine; which of the two that is depends on the machine and is left open.
    pub fn decode_native(buf: &[u8], require_source_loc: bool) -> (r: Result<
        Event,
        EventDecodeError,
    >)
        ensures
            decodes_to(buf@, native_order(), require_source_loc, r),
    {
        let order = native_byte_order();
        Event::decode(buf, order, require_source_loc)
    }
}

impl vstd::std_specs::convert::TryFromSpecImpl<&[u8]> for Event {
    open spec fn obeys_try_from_spec() -> bool {
        false
    }

    open spec fn try_from_spec(buf: &[u8]) -> Result<Self, Self::Error> {
        arbitrary()
    }
}

impl TryFrom<&[u8]> for Event {
    type Error = EventDecodeError;

    /// Decodes a record that was written on this machine, with or without a source location.
    /// Where one without is to be refused, use [`Event::decode_native`].
    fn try_from(buf: &[u8]) -> (r: Result<Event, EventDecodeError>)
        ensures
            decodes_to(buf@, native_order(), false, r),
    {
        Event::decode_native(buf, false)
    }
}

/// What makes two events share a callsite: the file and the line they come from, whether they
/// start a span, and their level.
pub type CallsiteKey = (Option<String>, Option<u32>, bool, Level);

/// The mathematical value of a [`CallsiteKey`].
pub type CallsiteKeyView = (Option<Seq<char>>, Option<u32>, bool, Level);

/// The value of a callsite key.
pub open spec fn key_view(key: CallsiteKey) -> CallsiteKeyView {
    (optional_text(key.0), key.1, key.2, key.3)
}

/// The callsite that an event belongs to. The end of a span belongs to none.
pub open spec fn callsite_of(e: EventView) -> Option<CallsiteKeyView> {
    match e.kind {
        Kind::Message(level) => Some((e.file, e.line, false, level)),
        Kind::StartSpan(level) => Some((e.file, e.line, true, level)),
        Kind::EndSpan => None,
    }
}

impl vstd::std_specs::convert::TryFromSpecImpl<Event> for CallsiteKey {
    open spec fn obeys_try_from_spec() -> bool {
        false
    }

    open spec fn try_from_spec(event: Event) -> Result<Self, Self::Error> {
        arbitrary()
    }
}

impl TryFrom<Event> for CallsiteKey {
    type Error = ();

    /// The callsite that an event belongs to, or an error for the end of a span.
    fn try_from(event: Event) -> (r: Result<CallsiteKey, ()>)
        ensures
            match callsite_of(event@) {
                Some(key) => r is Ok && key_view(r->Ok_0) == key,
                None => r is Err,
            },
    {
        match event.kind {
            Kind::StartSpan(level) => Ok((event.file, event.line, true, level)),
            Kind::EndSpan => Err(()),
            Kind::Message(level) => Ok((event.file, event.line, false, level)),
        }
    }
}

/// Whether a text fits a string field: its UTF-8 bytes are no more than the field holds, and
/// none of them is the zero byte that ends a shorter text.
pub open spec fn text_fits(text: Seq<char>) -> bool {
    &&& encode_utf8(text).len() <= BPF_TRACING_STR_LEN
    &&& !encode_utf8(text).contains(0u8)
}

/// Whether an event can be written as a record.
pub open spec fn event_fits(e: EventView) -> bool {
    &&& text_fits(e.content)
    &&& e.cpu < 0x1_0000
    &&& e.file matches Some(file) ==> text_fits(file) && file.len() > 0 && e.line is Some
}

/// A string field that holds `text`, filled up with zero bytes.
pub open spec fn padded(text: Seq<char>) -> Seq<u8> {
    encode_utf8(text) + Seq::new(
        (BPF_TRACING_STR_LEN - encode_utf8(text).len()) as nat,
        |i: int| 0u8,
    )
}

/// The two bytes that hold `value` in the given order.
pub open spec fn u16_bytes(value: nat, order: ByteOrder) -> Seq<u8> {
    let low = (value % 0x100) as u8;
    let high = (value / 0x100) as u8;
    match order {
        ByteOrder::Little => seq![low, high],
        ByteOrder::Big => seq![high, low],
    }
}

/// The four bytes that hold `value` in the given order.
pub open spec fn u32_bytes(value: nat, order: ByteOrder) -> Seq<u8> {
    let low = u16_bytes(value % 0x1_0000, order);
    let high = u16_bytes(value / 0x1_0000, order);
    match order {
        ByteOrder::Little => low + high,
        ByteOrder::Big => high + low,
    }
}

/// The byte that stands for a level.
pub open spec fn level_byte(level: Level) -> u8 {
    match level {
        Level::ERROR => 1,
        Level::WARN => 2,
        Level::INFO => 3,
        Level::DEBUG => 4,
        Level::TRACE => 5,
    }
}

/// The level byte and the kind byte of a record.
pub open spec fn kind_bytes(kind: Kind) -> Seq<u8> {
    match kind {
        Kind::Message(level) => seq![level_byte(level), 0u8],
        Kind::StartSpan(level) => seq![level_byte(level), 1u8],
        Kind::EndSpan => seq![0u8, 2u8],
    }
}

/// The source location of a record.
pub open spec fn source_loc_bytes(e: EventView, order: ByteOrder) -> Seq<u8> {
    match e.line {
        Some(line) => padded(
            match e.file {
                Some(file) => file,
                None => Seq::empty(),
            },
        ) + u32_bytes(line as nat, order),
        None => Seq::empty(),
    }
}

/// The record that holds an event.
pub open spec fn record_of(e: EventView, order: ByteOrder) -> Seq<u8> {
    kind_bytes(e.kind) + u16_bytes(e.cpu, order) + padded(e.content) + source_loc_bytes(e, order)
}

proof fn lemma_padded(text: Seq<char>)
    requires
        text_fits(text),
    ensures
        padded(text).len() == BPF_TRACING_STR_LEN,
        c_string(padded(text)) == encode_utf8(text),
        valid_utf8(c_string(padded(text))),
        decode_utf8(c_string(padded(text))) == text,
{
    let bytes = encode_utf8(text);
    let field = padded(text);
    field.index_of_first_ensures(0u8);
    assert(forall|i: int| 0 <= i < bytes.len() ==> field[i] == bytes[i] && bytes[i] != 0);
    if bytes.len() < field.len() {
        assert(field[bytes.len() as int] == 0);
    }
    assert(c_string(field) == bytes);
    vstd::utf8::encode_utf8_valid_utf8(text);
    vstd::utf8::encode_utf8_decode_utf8(text);
}

proof fn lemma_record_len(e: EventView, order: ByteOrder)
    requires
        event_fits(e),
    ensures
        record_of(e, order).len() == if e.line is Some {
            EVENT_WITH_FILE_SIZE
        } else {
            EVENT_BASE_SIZE
        },
        e.kind is EndSpan ==> record_of(e, order)[1] == 2,
{
    if e.file is None {
        reveal_with_fuel(encode_utf8, 1);
    }
}

/// Reading gives back what was written: the record of an event decodes to that event, whether
/// or not a source location is required, as long as the event has what is required.
pub proof fn law_record_decodes_to_its_event(
    e: EventView,
    order: ByteOrder,
    require_source_loc: bool,
)
    requires
        event_fits(e),
        require_source_loc ==> e.line is Some,
    ensures
        decode_failure(record_of(e, order), require_source_loc) is None,
        decoded(record_of(e, order), order) == e,
{
    let buf = record_of(e, order);
    lemma_padded(e.content);
    assert(msg_field(buf) == padded(e.content));
    assert(cpu_field(buf) == u16_bytes(e.cpu, order));
    if e.line is Some {
        let file = match e.file {
            Some(file) => file,
            None => Seq::empty(),
        };
        if e.file is None {
            reveal_with_fuel(encode_utf8, 1);
        }
        lemma_padded(file);
        assert(file_field(buf) == padded(file));
        assert(line_field(buf) == u32_bytes(e.line->0 as nat, order));
        assert(u32_value(line_field(buf), order) == e.line->0);
    }
}

/// What comes out of a record is an event that can be written as a record: its texts fit their
/// fields, its CPU is a 16-bit number, and a file comes with a line and is not empty.
pub proof fn law_decoded_event_fits(buf: Seq<u8>, order: ByteOrder, require_source_loc: bool)
    requires
        decode_failure(buf, require_source_loc) is None,
    ensures
        event_fits(decoded(buf, order)),
        decoded(buf, order).line is Some <==> has_source_loc(buf),
        require_source_loc ==> decoded(buf, order).line is Some,
{
    msg_field(buf).index_of_first_ensures(0u8);
    vstd::utf8::decode_utf8_encode_utf8(c_string(msg_field(buf)));
    if has_source_loc(buf) {
        file_field(buf).index_of_first_ensures(0u8);
        vstd::utf8::decode_utf8_encode_utf8(c_string(file_field(buf)));
    }
}

/// Only the fields of a record count: what follows a record with a source location, and what
/// follows one without that is too short to be a source location, changes nothing.
pub proof fn law_trailing_bytes_ignored(buf: Seq<u8>, order: ByteOrder, require_source_loc: bool)
    ensures
        has_source_loc(buf) ==> {
            let whole = buf.take(EVENT_WITH_FILE_SIZE as int);
            &&& decode_failure(whole, require_source_loc) == decode_failure(buf, require_source_loc)
            &&& decoded(whole, order) == decoded(buf, order)
        },
        EVENT_BASE_SIZE <= buf.len() < EVENT_WITH_FILE_SIZE ==> {
            let whole = buf.take(EVENT_BASE_SIZE as int);
            &&& decode_failure(whole, false) == decode_failure(buf, false)
            &&& decoded(whole, order) == decoded(buf, order)
        },
{
    if has_source_loc(buf) {
        let whole = buf.take(EVENT_WITH_FILE_SIZE as int);
        assert(msg_field(whole) == msg_field(buf));
        assert(cpu_field(whole) == cpu_field(buf));
        assert(file_field(whole) == file_field(buf));
        assert(line_field(whole) == line_field(buf));
    } else if EVENT_BASE_SIZE <= buf.len() {
        let whole = buf.take(EVENT_BASE_SIZE as int);
        assert(msg_field(whole) == msg_field(buf));
        assert(cpu_field(whole) == cpu_field(buf));
    }
}

/// Only messages and starts of spans have a level. In a record of any other kind the level byte
/// may hold anything: it changes nothing, and is never what the record is refused for.
pub proof fn law_level_counts_for_messages_and_starts_only(
    buf: Seq<u8>,
    level: u8,
    order: ByteOrder,
    require_source_loc: bool,
)
    requires
        buf.len() >= EVENT_BASE_SIZE,
        buf[1] >= 2,
    ensures
        decode_failure(buf.update(0, level), require_source_loc) == decode_failure(
            buf,
            require_source_loc,
        ),
        decoded(buf.update(0, level), order) == decoded(buf, order),
        !(decode_failure(buf, require_source_loc) matches Some(EventDecodeError::InvalidLevel(_))),
{
    let other = buf.update(0, level);
    assert(msg_field(other) == msg_field(buf));
    assert(cpu_field(other) == cpu_field(buf));
    if has_source_loc(buf) {
        assert(file_field(other) == file_field(buf));
        assert(line_field(other) == line_field(buf));
    }
}

/// However a record is decoded on a machine, and however often, it comes to the same.
pub proof fn law_native_decodings_agree(
    buf: Seq<u8>,
    require_source_loc: bool,
    a: Result<Event, EventDecodeError>,
    b: Result<Event, EventDecodeError>,
)
    requires
        decodes_to(buf, native_order(), require_source_loc, a),
        decodes_to(buf, native_order(), require_source_loc, b),
    ensures
        same_outcome(a, b),
{
}

/// What was written on a machine is read there as it was written, whatever follows a record with
/// a source location, and whatever the level byte of the end of a span holds.
pub proof fn law_native_record_decodes_to_its_event(
    e: EventView,
    level: u8,
    rest: Seq<u8>,
    require_source_loc: bool,
    r: Result<Event, EventDecodeError>,
)
    requires
        event_fits(e),
        require_source_loc ==> e.line is Some,
        rest.len() > 0 ==> e.line is Some,
        !(e.kind is EndSpan) ==> level == record_of(e, native_order())[0],
        decodes_to(
            record_of(e, native_order()).update(0, level) + rest,
            native_order(),
            require_source_loc,
            r,
        ),
    ensures
        r is Ok,
        r->Ok_0@ == e,
{
    let order = native_order();
    let record = record_of(e, order);
    let read = record.update(0, level);
    law_record_decodes_to_its_event(e, order, require_source_loc);
    lemma_record_len(e, order);
    if e.kind is EndSpan {
        law_level_counts_for_messages_and_starts_only(record, level, order, require_source_loc);
    } else {
        assert(read == record);
    }
    law_trailing_bytes_ignored(read + rest, order, require_source_loc);
    if e.line is Some {
        assert((read + rest).take(EVENT_WITH_FILE_SIZE as int) == read);
    } else {
        assert(read + rest == read);
    }
}

/// On every machine, what follows a record with a source location changes nothing.
pub proof fn law_native_trailing_bytes_ignored(
    buf: Seq<u8>,
    other: Seq<u8>,
    require_source_loc: bool,
    a: Result<Event, EventDecodeError>,
    b: Result<Event, EventDecodeError>,
)
    requires
        has_source_loc(buf),
        has_source_loc(other),
        buf.take(EVENT_WITH_FILE_SIZE as int) == other.take(EVENT_WITH_FILE_SIZE as int),
        decodes_to(buf, native_order(), require_source_loc, a),
        decodes_to(other, native_order(), require_source_loc, b),
    ensures
        same_outcome(a, b),
{
    let order = native_order();
    law_trailing_bytes_ignored(buf, order, require_source_loc);
    law_trailing_bytes_ignored(other, order, require_source_loc);
}

/// On every machine, the level byte counts for messages and starts of spans only.
pub proof fn law_native_level_counts_for_messages_and_starts_only(
    buf: Seq<u8>,
    level: u8,
    require_source_loc: bool,
    a: Result<Event, EventDecodeError>,
    b: Result<Event, EventDecodeError>,
)
    requires
        buf.len() >= EVENT_BASE_SIZE,
        buf[1] >= 2,
        decodes_to(buf, native_order(), require_source_loc, a),
        decodes_to(buf.update(0, level), native_order(), require_source_loc, b),
    ensures
        same_outcome(a, b),
        !(a matches Err(EventDecodeError::InvalidLevel(_))),
{
    let order = native_order();
    law_level_counts_for_messages_and_starts_only(buf, level, order, require_source_loc);
}

/// Where no source location is required, one that is not whole counts for nothing: on every
/// machine the record comes to the same as without it, and an event that comes out has neither a
/// file nor a line.
pub proof fn law_native_partial_source_loc_ignored(
    buf: Seq<u8>,
    a: Result<Event, EventDecodeError>,
    b: Result<Event, EventDecodeError>,
)
    requires
        EVENT_BASE_SIZE <= buf.len() < EVENT_WITH_FILE_SIZE,
        decodes_to(buf, native_order(), false, a),
        decodes_to(buf.take(EVENT_BASE_SIZE as int), native_order(), false, b),
    ensures
        same_outcome(a, b),
        a matches Ok(event) ==> event@.file is None && event@.line is None,
{
    let order = native_order();
    law_trailing_bytes_ignored(buf, order, false);
}

/// Messages and starts of spans have a callsite, and two of them share it exactly where their
/// kind, level, file and line agree. What they say and which CPU they come from plays no part.
pub proof fn law_callsite_per_level_kind_and_place(a: EventView, b: EventView)
    requires
        !(a.kind is EndSpan),
        !(b.kind is EndSpan),
    ensures
        callsite_of(a) is Some,
        callsite_of(a) == callsite_of(b) <==> a.kind == b.kind && a.file == b.file && a.line
            == b.line,
{
}

/// Whether the string field of `buf` that starts at `start` holds a text of `n` bytes: none of
/// them is zero, and a zero byte follows, or the field is full.
pub open spec fn text_ends_at(buf: Seq<u8>, start: int, n: int) -> bool {
    &&& 0 <= n <= BPF_TRACING_STR_LEN
    &&& forall|i: int| start <= i < start + n ==> #[trigger] buf[i] != 0
    &&& n < BPF_TRACING_STR_LEN ==> buf[start + n] == 0
}

/// What counts of a string field is what stands in front of its first zero byte, whole.
pub proof fn law_c_string_ends_at_the_first_zero(bytes: Seq<u8>, n: int)
    requires
        0 <= n <= bytes.len(),
        forall|i: int| 0 <= i < n ==> #[trigger] bytes[i] != 0,
        n < bytes.len() ==> bytes[n] == 0,
    ensures
        c_string(bytes) == bytes.take(n),
{
    bytes.index_of_first_ensures(0u8);
    assert(bytes.take(bytes.len() as int) == bytes);
}

proof fn lemma_field_text(buf: Seq<u8>, start: int, n: int)
    requires
        0 <= start,
        start + BPF_TRACING_STR_LEN <= buf.len(),
        text_ends_at(buf, start, n),
    ensures
        c_string(buf.subrange(start, start + BPF_TRACING_STR_LEN)) == buf.subrange(
            start,
            start + n,
        ),
{
    let field = buf.subrange(start, start + BPF_TRACING_STR_LEN);
    assert forall|i: int| 0 <= i < n implies #[trigger] field[i] != 0 by {
        assert(field[i] == buf[start + i]);
    }
    law_c_string_ends_at_the_first_zero(field, n);
    assert(field.take(n) == buf.subrange(start, start + n));
}

/// Every string field holds a text, of one length.
pub proof fn law_every_field_holds_one_text(buf: Seq<u8>, start: int) -> (n: int)
    requires
        0 <= start,
        start + BPF_TRACING_STR_LEN <= buf.len(),
    ensures
        text_ends_at(buf, start, n),
        forall|m: int| #[trigger] text_ends_at(buf, start, m) ==> m == n,
{
    let field = buf.subrange(start, start + BPF_TRACING_STR_LEN);
    field.index_of_first_ensures(0u8);
    let n = match field.index_of_first(0u8) {
        Some(i) => i,
        None => BPF_TRACING_STR_LEN as int,
    };
    assert forall|i: int| start <= i < start + n implies #[trigger] buf[i] != 0 by {
        assert(field[i - start] == buf[i]);
    }
    if n < BPF_TRACING_STR_LEN {
        assert(field[n] == buf[start + n]);
    }
    assert forall|m: int| #[trigger] text_ends_at(buf, start, m) implies m == n by {
        if m < n {
            assert(buf[start + m] != 0);
        } else if n < m {
            assert(buf[start + n] != 0);
        }
    }
    n
}

/// Level bytes number the levels from the least verbose on, and no other byte is a level.
pub proof fn law_levels_are_numbered_from_one(byte: u8)
    ensures
        level_of(byte) is Some <==> 1 <= byte <= 5,
        level_of(byte) == Some(Level::ERROR) <==> byte == 1,
        level_of(byte) == Some(Level::WARN) <==> byte == 2,
        level_of(byte) == Some(Level::INFO) <==> byte == 3,
        level_of(byte) == Some(Level::DEBUG) <==> byte == 4,
        level_of(byte) == Some(Level::TRACE) <==> byte == 5,
{
}

/// A record that is too short for its fields is refused as too short, whatever it holds.
pub proof fn law_short_record_is_refused(
    buf: Seq<u8>,
    order: ByteOrder,
    require_source_loc: bool,
    r: Result<Event, EventDecodeError>,
)
    requires
        buf.len() < 4 + BPF_TRACING_STR_LEN,
        decodes_to(buf, order, require_source_loc, r),
    ensures
        r matches Err(EventDecodeError::BufferTooShort { expected, actual }) && expected == 4
            + BPF_TRACING_STR_LEN && actual == buf.len(),
{
}

/// What comes out of a record is what its bytes say. Where `msg_len` and `file_len` are the
/// lengths of its texts:
///
/// - The message and the file are the texts, byte for byte, where they are UTF-8. An empty file
///   is none. What stands behind a text does not count.
/// - The kind, the level, the CPU and the line are those of their bytes.
/// - A record is refused for the first of these that fails: the message is no UTF-8, a required
///   source location is missing, the file is no UTF-8, the kind is unknown, the level is unknown.
pub proof fn law_event_is_what_the_bytes_say(
    buf: Seq<u8>,
    order: ByteOrder,
    require_source_loc: bool,
    msg_len: int,
    file_len: int,
    r: Result<Event, EventDecodeError>,
)
    requires
        4 + BPF_TRACING_STR_LEN <= buf.len() <= usize::MAX,
        text_ends_at(buf, 4, msg_len),
        buf.len() >= 8 + 2 * BPF_TRACING_STR_LEN ==> text_ends_at(
            buf,
            4 + BPF_TRACING_STR_LEN,
            file_len,
        ),
        decodes_to(buf, order, require_source_loc, r),
    ensures
        ({
            let at = 4 + BPF_TRACING_STR_LEN;
            let end = at + BPF_TRACING_STR_LEN;
            let located = buf.len() >= end + 4;
            let msg = buf.subrange(4, 4 + msg_len);
            let file = buf.subrange(at, at + file_len);
            let texts_pass = valid_utf8(msg) && (require_source_loc ==> located) && (located
                ==> valid_utf8(file));
            match r {
                Ok(e) => {
                    &&& texts_pass
                    &&& encode_utf8(e.content@) == msg
                    &&& match e.kind {
                        Kind::Message(level) => buf[1] == 0 && level_of(buf[0]) == Some(level),
                        Kind::StartSpan(level) => buf[1] == 1 && level_of(buf[0]) == Some(level),
                        Kind::EndSpan => buf[1] == 2,
                    }
                    &&& e.cpu == match order {
                        ByteOrder::Little => buf[2] + 256 * buf[3],
                        ByteOrder::Big => 256 * buf[2] + buf[3],
                    }
                    &&& match e.file {
                        Some(name) => located && file_len > 0 && encode_utf8(name@) == file,
                        None => located ==> file_len == 0,
                    }
                    &&& match e.line {
                        Some(line) => located && line == match order {
                            ByteOrder::Little => buf[end] + 256 * (buf[end + 1] + 256 * (buf[end
                                + 2] + 256 * buf[end + 3])),
                            ByteOrder::Big => buf[end + 3] + 256 * (buf[end + 2] + 256 * (buf[end
                                + 1] + 256 * buf[end])),
                        },
                        None => !located,
                    }
                },
                Err(EventDecodeError::InvalidUtf8(field)) => {
                    ||| field@ == "msg"@ && !valid_utf8(msg)
                    ||| {
                        &&& field@ == "file"@
                        &&& valid_utf8(msg)
                        &&& located
                        &&& !valid_utf8(file)
                    }
                },
                Err(EventDecodeError::BufferTooShort { expected, actual }) => {
                    &&& expected == end + 4
                    &&& actual == buf.len()
                    &&& valid_utf8(msg)
                    &&& require_source_loc
                    &&& !located
                },
                Err(EventDecodeError::InvalidKind(kind)) => texts_pass && kind == buf[1] && kind > 2,
                Err(EventDecodeError::InvalidLevel(level)) => {
                    &&& texts_pass
                    &&& buf[1] < 2
                    &&& level == buf[0]
                    &&& !(1 <= level <= 5)
                },
            }
        }),
{
    let at = 4 + BPF_TRACING_STR_LEN;
    let msg = buf.subrange(4, 4 + msg_len);
    let file = buf.subrange(at, at + file_len);
    lemma_field_text(buf, 4, msg_len);
    assert(c_string(msg_field(buf)) == msg);
    law_levels_are_numbered_from_one(buf[0]);
    if valid_utf8(msg) {
        vstd::utf8::decode_utf8_encode_utf8(msg);
    }
    if has_source_loc(buf) {
        lemma_field_text(buf, at, file_len);
        assert(c_string(file_field(buf)) == file);
        if valid_utf8(file) {
            vstd::utf8::decode_utf8_encode_utf8(file);
            if decode_utf8(file).len() == 0 {
                assert(decode_utf8(file) == Seq::<char>::empty());
                reveal_with_fuel(encode_utf8, 1);
                assert(file.len() == 0);
            } else if file_len == 0 {
                vstd::utf8::encode_utf8_decode_utf8(Seq::<char>::empty());
                reveal_with_fuel(encode_utf8, 1);
                assert(file == encode_utf8(Seq::<char>::empty()));
            }
        }
    }
}

/// What stands behind a text in its field does not count: two records that differ there only
/// come to the same.
pub proof fn law_bytes_behind_a_text_do_not_count(
    buf: Seq<u8>,
    other: Seq<u8>,
    order: ByteOrder,
    require_source_loc: bool,
    msg_len: int,
    file_len: int,
    a: Result<Event, EventDecodeError>,
    b: Result<Event, EventDecodeError>,
)
    requires
        4 + BPF_TRACING_STR_LEN <= buf.len() == other.len(),
        text_ends_at(buf, 4, msg_len),
        buf.len() >= 8 + 2 * BPF_TRACING_STR_LEN ==> text_ends_at(
            buf,
            4 + BPF_TRACING_STR_LEN,
            file_len,
        ),
        forall|i: int|
            0 <= i < buf.len() && !(4 + msg_len < i < 4 + BPF_TRACING_STR_LEN) && !(buf.len() >= 8
                + 2 * BPF_TRACING_STR_LEN && 4 + BPF_TRACING_STR_LEN + file_len < i < 4 + 2
                * BPF_TRACING_STR_LEN) ==> #[trigger] buf[i] == other[i],
        decodes_to(buf, order, require_source_loc, a),
        decodes_to(other, order, require_source_loc, b),
    ensures
        same_outcome(a, b),
{
    let at = 4 + BPF_TRACING_STR_LEN;
    assert forall|i: int| 4 <= i < 4 + msg_len implies #[trigger] other[i] != 0 by {
        assert(buf[i] == other[i]);
    }
    if msg_len < BPF_TRACING_STR_LEN {
        assert(buf[4 + msg_len] == other[4 + msg_len]);
    }
    lemma_field_text(buf, 4, msg_len);
    lemma_field_text(other, 4, msg_len);
    assert forall|i: int| 4 <= i < 4 + msg_len implies buf[i] == other[i] by {}
    assert(buf.subrange(4, 4 + msg_len) == other.subrange(4, 4 + msg_len));
    assert(buf[0] == other[0] && buf[1] == other[1] && buf[2] == other[2] && buf[3] == other[3]);
    assert(cpu_field(buf) == cpu_field(other));
    if has_source_loc(buf) {
        assert forall|i: int| at <= i < at + file_len implies #[trigger] other[i] != 0 by {
            assert(buf[i] == other[i]);
        }
        if file_len < BPF_TRACING_STR_LEN {
            assert(buf[at + file_len] == other[at + file_len]);
        }
        lemma_field_text(buf, at, file_len);
        lemma_field_text(other, at, file_len);
        assert forall|i: int| at <= i < at + file_len implies buf[i] == other[i] by {}
        assert(buf.subrange(at, at + file_len) == other.subrange(at, at + file_len));
        assert(line_field(buf) == line_field(other));
    }
}

/// A key tells the file, the line, the level and whether a span starts of its event, and only the
/// end of a span has none.
pub proof fn law_key_tells_where_an_event_comes_from(event: Event, r: Result<CallsiteKey, ()>)
    requires
        match callsite_of(event@) {
            Some(key) => r is Ok && key_view(r->Ok_0) == key,
            None => r is Err,
        },
    ensures
        match r {
            Ok((file, line, is_span, level)) => {
                &&& event.kind == if is_span {
                    Kind::StartSpan(level)
                } else {
                    Kind::Message(level)
                }
                &&& file is Some <==> event.file is Some
                &&& file is Some ==> file->0@ == event.file->0@
                &&& line == event.line
            },
            Err(_) => event.kind is EndSpan,
        },
{
}

/// An error says what it is of: how long a record is and would have to be, which byte is no level
/// or no kind, or which field is no UTF-8.
pub proof fn law_error_says_what_it_is_of(e: EventDecodeError)
    ensures
        match e {
            EventDecodeError::BufferTooShort { expected, actual } => {
                let front = "event buffer too short (expected at least "@ + decimal_text(
                    expected as nat,
                );
                let back = " bytes, got "@ + decimal_text(actual as nat) + ")"@;
                error_text(e) == front + back
            },
            EventDecodeError::InvalidLevel(byte) => error_text(e) == "invalid log level: "@
                + decimal_text(byte as nat),
            EventDecodeError::InvalidKind(byte) => error_text(e) == "invalid event kind: "@
                + decimal_text(byte as nat),
            EventDecodeError::InvalidUtf8(field) => error_text(e) == "invalid UTF-8 in "@ + (field@
                + " field"@),
        },
{
}

/// The machine reads numbers in the order that its hardware has: the byte that counts least comes
/// first exactly where the hardware is little endian.
pub proof fn law_native_order_is_that_of_the_hardware(low: u8, high: u8)
    ensures
        vstd::endian::endianness() is Little ==> u16_value(seq![low, high], native_order()) == low
            + 256 * high,
        vstd::endian::endianness() is Big ==> u16_value(seq![high, low], native_order()) == low
            + 256 * high,
{
}

} // verus!
