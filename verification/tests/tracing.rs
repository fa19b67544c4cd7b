use std::cell::RefCell;
use std::rc::Rc;
use xbpf::event::{CallsiteKey, Event, EventDecodeError, Kind, Level};
use xbpf::tracing::{
    emit, emit_at, enabled, events_maps, get_callsite, next_step, print, Action, CallsiteFields,
    Callsites, Dispatch, PrintLevel, Spans, Step,
};

const MANIFEST_DIR: &str = "/home/dev/project/xbpf";

/// What is registered for a callsite: leaked, as metadata is.
fn leak(fields: CallsiteFields) -> &'static CallsiteFields {
    Box::leak(Box::new(fields))
}

fn event(kind: Kind, content: &str, cpu: usize) -> Event {
    Event {
        kind,
        content: content.to_string(),
        cpu,
        file: None,
        line: None,
    }
}

#[test]
fn leaks_one_callsite_per_level_and_kind() {
    let mut callsites: Callsites<&'static CallsiteFields> = Callsites::new();

    let event_msg_info1 = Event {
        kind: Kind::Message(Level::INFO),
        content: "event 1".to_string(),
        cpu: 1,
        file: None,
        line: None,
    };

    let event_msg_info2 = Event {
        kind: Kind::Message(Level::INFO),
        content: "event 2".to_string(),
        cpu: 9,
        file: None,
        line: None,
    };

    let _callsite1 = get_callsite(
        &mut callsites,
        event_msg_info1.try_into().unwrap(),
        MANIFEST_DIR,
        leak,
    );
    let _callsite2 = get_callsite(
        &mut callsites,
        event_msg_info2.try_into().unwrap(),
        MANIFEST_DIR,
        leak,
    );
    assert_eq!(callsites.len(), 1);

    let event_span_info3 = Event {
        kind: Kind::StartSpan(Level::INFO),
        content: "event 3".to_string(),
        cpu: 29,
        file: None,
        line: None,
    };
    let _callsite3 = get_callsite(
        &mut callsites,
        event_span_info3.try_into().unwrap(),
        MANIFEST_DIR,
        leak,
    );
    assert_eq!(callsites.len(), 2);

    let event_span_info4 = Event {
        kind: Kind::StartSpan(Level::INFO),
        content: "event 4".to_string(),
        cpu: 29,
        file: Some(String::from("this/is/a/test_file.rs")),
        line: Some(12),
    };
    let _callsite4 = get_callsite(
        &mut callsites,
        event_span_info4.try_into().unwrap(),
        MANIFEST_DIR,
        leak,
    );
    assert_eq!(callsites.len(), 3);

    let event_span_info5 = Event {
        kind: Kind::StartSpan(Level::INFO),
        content: "event 5".to_string(),
        cpu: 29,
        file: Some(String::from("this/is/a/test_file.rs")),
        line: Some(12),
    };
    let _callsite5 = get_callsite(
        &mut callsites,
        event_span_info5.try_into().unwrap(),
        MANIFEST_DIR,
        leak,
    );
    assert_eq!(callsites.len(), 3);
}

#[test]
fn callsites_are_made_once_from_their_fields() {
    let mut callsites: Callsites<&'static CallsiteFields> = Callsites::new();
    let key = || -> CallsiteKey {
        (
            Some("/home/dev/project/probes//tcp.bpf.c".to_string()),
            Some(40),
            false,
            Level::WARN,
        )
    };
    let first = get_callsite(&mut callsites, key(), MANIFEST_DIR, leak);
    assert_eq!(
        *first,
        CallsiteFields {
            name: "",
            target: "bpf",
            level: Level::WARN,
            file: Some("probes/tcp.bpf.c".to_string()),
            line: Some(40),
            module: None,
            field_names: vec!["message"],
            is_span: false,
        }
    );
    let again = get_callsite(&mut callsites, key(), MANIFEST_DIR, |_| {
        panic!("the callsite is known")
    });
    assert!(std::ptr::eq(first, again));
    assert_eq!(callsites.len(), 1);
}

#[test]
fn callsites_differ_as_their_keys_do() {
    let mut callsites: Callsites<&'static CallsiteFields> = Callsites::new();
    // The first two files come to the same once what they share with the directory is gone.
    let files = ["/home/dev/project/a.c", "/home/dev/a.c", "a.c", "/home/dev/project/a.c"];
    let mut keys: Vec<CallsiteKey> = Vec::new();
    for file in files {
        for line in [1, 2] {
            for is_span in [false, true] {
                for level in [Level::INFO, Level::TRACE] {
                    keys.push((Some(file.to_string()), Some(line), is_span, level));
                }
            }
        }
    }
    keys.push((None, None, false, Level::INFO));
    let metas: Vec<&'static CallsiteFields> = keys
        .iter()
        .map(|key| get_callsite(&mut callsites, key.clone(), MANIFEST_DIR, leak))
        .collect();
    assert_eq!(metas[0], metas[8]);
    for i in 0..keys.len() {
        for j in 0..keys.len() {
            assert_eq!(std::ptr::eq(metas[i], metas[j]), keys[i] == keys[j]);
        }
    }
    assert_eq!(callsites.len(), 25);
}

#[test]
fn callsites_are_made_once_per_key() {
    let mut callsites: Callsites<usize> = Callsites::new();
    let mut made: Vec<usize> = Vec::new();
    let mut given: Vec<usize> = Vec::new();
    for (request, line) in [5, 6, 5, 5, 7, 6].into_iter().enumerate() {
        let key: CallsiteKey = (None, Some(line), false, Level::INFO);
        let meta = get_callsite(&mut callsites, key, MANIFEST_DIR, |fields| {
            assert_eq!(fields.line, Some(line));
            made.push(request);
            request
        });
        given.push(meta);
    }
    assert_eq!(made, vec![0, 1, 4]);
    assert_eq!(given, vec![0, 1, 0, 0, 4, 1]);
}

#[test]
fn what_is_sent_has_the_metadata_of_its_event() {
    let mut callsites: Callsites<&'static CallsiteFields> = Callsites::new();
    let mut spans: Spans<u32> = Spans::new(1);
    let start = Event {
        kind: Kind::StartSpan(Level::ERROR),
        content: "work".to_string(),
        cpu: 0,
        file: Some("/home/dev/project/probes/a.c".to_string()),
        line: Some(3),
    };
    match emit_at(&mut spans, start, Some(Level::ERROR)) {
        Action::OpenSpan(dispatch) => {
            let fields = get_callsite(&mut callsites, dispatch.callsite, MANIFEST_DIR, leak);
            assert_eq!(
                *fields,
                CallsiteFields {
                    name: "",
                    target: "bpf",
                    level: Level::ERROR,
                    file: Some("probes/a.c".to_string()),
                    line: Some(3),
                    module: None,
                    field_names: vec!["message"],
                    is_span: true,
                }
            );
        }
        _ => panic!("a span is to be opened"),
    }
}

#[test]
fn end_of_a_span_has_no_callsite() {
    let key: Result<CallsiteKey, ()> = event(Kind::EndSpan, "work", 0).try_into();
    assert!(key.is_err());
    let key: Result<CallsiteKey, ()> = event(Kind::StartSpan(Level::DEBUG), "work", 0).try_into();
    assert_eq!(key, Ok((None, None, true, Level::DEBUG)));
    let key: Result<CallsiteKey, ()> = event(Kind::Message(Level::DEBUG), "work", 0).try_into();
    assert_eq!(key, Ok((None, None, false, Level::DEBUG)));
}

#[test]
fn levels_get_through_up_to_the_most_verbose() {
    let levels = [
        (Level::ERROR, tracing::Level::ERROR),
        (Level::WARN, tracing::Level::WARN),
        (Level::INFO, tracing::Level::INFO),
        (Level::DEBUG, tracing::Level::DEBUG),
        (Level::TRACE, tracing::Level::TRACE),
    ];
    for (level, outside) in levels {
        assert!(!enabled(level, None));
        assert!(!(outside <= tracing::level_filters::LevelFilter::OFF));
        for (max, outside_max) in levels {
            let filter = tracing::level_filters::LevelFilter::from_level(outside_max);
            assert_eq!(enabled(level, Some(max)), outside <= filter);
        }
    }
}

/// Opens a span: its handle is a number.
fn open(spans: &mut Spans<u32>, name: &str, cpu: usize, handle: u32) {
    let start = event(Kind::StartSpan(Level::INFO), name, cpu);
    match emit_at(spans, start, Some(Level::INFO)) {
        Action::OpenSpan(Dispatch { cpu, content, .. }) => spans.enter(cpu, content, handle),
        _ => panic!("a span is to be opened"),
    }
}

#[test]
fn spans_nest_and_close_per_cpu() {
    let mut spans: Spans<u32> = Spans::new(2);
    assert_eq!(spans.parent(0), None);
    assert_eq!(spans.parent(7), None);
    open(&mut spans, "outer", 0, 1);
    open(&mut spans, "middle", 0, 2);
    open(&mut spans, "inner", 0, 3);
    open(&mut spans, "outer", 7, 4);
    assert_eq!(spans.parent(0), Some(&3));
    assert_eq!(spans.parent(1), None);
    assert_eq!(spans.parent(7), Some(&4));

    let max = Some(Level::TRACE);
    assert_eq!(
        emit_at(&mut spans, event(Kind::EndSpan, "middle", 0), max),
        Action::Nothing
    );
    assert_eq!(spans.parent(0), Some(&1));
    assert_eq!(spans.parent(7), Some(&4));

    open(&mut spans, "again", 0, 5);
    emit_at(&mut spans, event(Kind::EndSpan, "unknown", 0), max);
    assert_eq!(spans.parent(0), None);
    assert_eq!(spans.parent(7), Some(&4));
}

#[test]
fn end_closes_the_innermost_span_of_its_name() {
    let mut spans: Spans<u32> = Spans::new(1);
    open(&mut spans, "same", 0, 1);
    open(&mut spans, "same", 0, 2);
    emit_at(&mut spans, event(Kind::EndSpan, "same", 0), None);
    assert_eq!(spans.parent(0), Some(&1));
}

/// A span that notes its number when it is closed.
struct Guard(u32, Rc<RefCell<Vec<u32>>>);

impl Drop for Guard {
    fn drop(&mut self) {
        self.1.borrow_mut().push(self.0);
    }
}

#[test]
fn spans_are_closed_from_the_innermost_on() {
    let closed = Rc::new(RefCell::new(Vec::new()));
    let mut spans: Spans<Guard> = Spans::new(1);
    spans.enter(0, "a".to_string(), Guard(1, closed.clone()));
    spans.enter(0, "b".to_string(), Guard(2, closed.clone()));
    spans.enter(0, "c".to_string(), Guard(3, closed.clone()));
    emit_at(&mut spans, event(Kind::EndSpan, "b", 0), None);
    assert_eq!(*closed.borrow(), vec![3, 2]);
}

#[test]
fn filtered_events_ask_for_nothing() {
    let mut spans: Spans<u32> = Spans::new(0);
    let message = event(Kind::Message(Level::DEBUG), "detail", 3);
    assert_eq!(
        emit_at(&mut spans, message, Some(Level::INFO)),
        Action::Nothing
    );
    let start = event(Kind::StartSpan(Level::ERROR), "work", 3);
    assert_eq!(emit_at(&mut spans, start, None), Action::Nothing);
    let message = Event {
        kind: Kind::Message(Level::INFO),
        content: "said".to_string(),
        cpu: 3,
        file: Some("a.c".to_string()),
        line: Some(1),
    };
    assert_eq!(
        emit_at(&mut spans, message, Some(Level::INFO)),
        Action::SendMessage(Dispatch {
            cpu: 3,
            callsite: (Some("a.c".to_string()), Some(1), false, Level::INFO),
            content: "said".to_string(),
        })
    );
}

#[test]
fn emission_follows_the_subscribers_of_the_process() {
    let mut spans: Spans<u32> = Spans::new(1);
    let error = event(Kind::Message(Level::ERROR), "lost", 0);
    assert_eq!(emit(&mut spans, error), Action::Nothing);

    tracing_subscriber::fmt()
        .with_max_level(tracing::Level::INFO)
        .with_writer(std::io::sink)
        .init();

    let info = event(Kind::Message(Level::INFO), "heard", 0);
    assert!(matches!(emit(&mut spans, info), Action::SendMessage(_)));
    let start = event(Kind::StartSpan(Level::WARN), "heard", 0);
    assert!(matches!(emit(&mut spans, start), Action::OpenSpan(_)));
    let debug = event(Kind::Message(Level::DEBUG), "unheard", 0);
    assert_eq!(emit(&mut spans, debug), Action::Nothing);
}

#[test]
fn libbpf_lines_lose_prefix_and_space() {
    let line = print(PrintLevel::Warn, "libbpf: map 'x': failed\n".to_string());
    assert_eq!(line.level, Level::WARN);
    assert_eq!(line.target, "libbpf");
    assert_eq!(line.message, "map 'x': failed");
    assert_eq!(
        print(PrintLevel::Info, "libbpf:libbpf: a".to_string()).message,
        "a"
    );
    assert_eq!(print(PrintLevel::Info, String::new()).level, Level::INFO);
    assert_eq!(print(PrintLevel::Debug, String::new()).level, Level::DEBUG);
    let lines = [
        "",
        "libbpf:",
        "libbpf",
        " libbpf: x",
        "libbpf: libbpf: x",
        "libbpf:\u{2003}\u{fc}ber\u{a0}\t",
        "plain",
        "libbpf:libbpf:libbpf",
    ];
    for msg in lines {
        let expected = msg.trim_start_matches("libbpf:").trim();
        assert_eq!(print(PrintLevel::Debug, msg.to_string()).message, expected);
    }
}

#[test]
fn events_come_from_the_maps_of_that_name() {
    let names = |names: &[&str]| -> Vec<String> { names.iter().map(|n| n.to_string()).collect() };
    assert_eq!(events_maps(&names(&[])), Vec::<usize>::new());
    assert_eq!(
        events_maps(&names(&["counts", "bpf_tracing_event"])),
        Vec::<usize>::new()
    );
    assert_eq!(
        events_maps(&names(&["a", "bpf_tracing_events", "b", "bpf_tracing_events"])),
        vec![1, 3]
    );
}

#[test]
fn reader_emits_warns_and_stops() {
    let message = event(Kind::Message(Level::INFO), "hi", 0);
    assert_eq!(
        next_step(Some(Ok(message.clone()))),
        Step::Emit(message)
    );
    match next_step(Some(Err(EventDecodeError::InvalidKind(9)))) {
        Step::Log(line) => {
            assert_eq!(line.level, Level::WARN);
            assert_eq!(line.target, "bpf");
            assert_eq!(line.message, "Failed to decode event: invalid event kind: 9");
        }
        _ => panic!("a warning is due"),
    }
    assert_eq!(next_step(None), Step::Stop);
}

#[test]
fn reader_goes_on_until_the_end() {
    let message = event(Kind::Message(Level::INFO), "hi", 0);
    let received = vec![
        Some(Err(EventDecodeError::InvalidLevel(0))),
        Some(Ok(message.clone())),
        Some(Err(EventDecodeError::InvalidUtf8("msg"))),
        Some(Ok(message)),
        None,
    ];
    let mut handled: Vec<&str> = Vec::new();
    for value in received {
        match next_step(value) {
            Step::Emit(_) => handled.push("emit"),
            Step::Log(_) => handled.push("log"),
            Step::Stop => break,
        }
    }
    assert_eq!(handled, vec!["log", "emit", "log", "emit"]);
}

#[test]
fn loop_messages_keep_their_order() {
    let mut spans: Spans<u32> = Spans::new(4);
    let mut log = String::new();
    for i in 0..1000u32 {
        let mut record = vec![4, 0];
        record.extend((i as u16 % 4).to_ne_bytes());
        let mut msg = format!("asdf qwer asdf qwer {}", i).into_bytes();
        msg.resize(128, 0);
        record.extend(msg);
        let event = Event::try_from(record.as_slice()).unwrap();
        match emit_at(&mut spans, event, Some(Level::DEBUG)) {
            Action::SendMessage(dispatch) => {
                log.push_str(&format!("bpf: {}\n", dispatch.content));
            }
            _ => panic!("a message is to be sent"),
        }
    }
    let numbers: Vec<u32> = log
        .lines()
        .filter_map(|line| line.rsplit_once("bpf: asdf qwer asdf qwer "))
        .filter_map(|(_, msg)| msg.trim().parse::<u32>().ok())
        .collect();
    assert_eq!(numbers, (0..1000).collect::<Vec<u32>>());
}
