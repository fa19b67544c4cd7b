//! What becomes of an event: its callsite, the spans it opens and closes, and what is sent on to
//! the tracing infrastructure.
use crate::event::{
    callsite_of, decode_failure, decoded, error_text, key_view, law_decoded_event_fits,
    optional_text, ByteOrder, CallsiteKey, CallsiteKeyView, Event, EventDecodeError, EventView, Kind,
    Level,
};
use crate::path::{
    components_beyond, law_stripped_path_keeps_what_is_not_shared, path_components, path_of,
    strip_matching_prefix_components,
};
use crate::text::{strip_and_trim, strip_prefixes, trim};
use std::collections::VecDeque;
use vstd::prelude::*;
use vstd::string::*;

verus! {

/// The target of the events of eBPF programs.
pub const TARGET: &'static str = "bpf";

/// The target of what libbpf itself prints.
pub const LIBBPF_TARGET: &'static str = "libbpf";

/// How many events are buffered in user space before they are dropped. The
/// events are small, so this is generous enough to absorb a burst that the
/// eBPF ring buffer cannot hold on its own.
pub const USERSPACE_CAPACITY: usize = 16 * 1024;

/// The name of the map that events come from.
pub const EVENTS_MAP: &'static str = "bpf_tracing_events";

/// How urgent libbpf takes what it prints to be.
#[derive(Debug, Clone, Copy, PartialEq, Eq, Structural)]
pub enum PrintLevel {
    Debug,
    Info,
    Warn,
}

/// A line for the log.
#[derive(Debug, Clone, PartialEq, Eq)]
pub struct LogLine {
    pub level: Level,
    pub target: &'static str,
    pub message: String,
}

/// The line for the log that something printed by libbpf makes: without the `libbpf:` in front
/// of it and without the white space around it.
pub fn print(level: PrintLevel, msg: String) -> (r: LogLine)
    ensures
        r.level == match level {
            PrintLevel::Debug => Level::DEBUG,
            PrintLevel::Info => Level::INFO,
            PrintLevel::Warn => Level::WARN,
        },
        r.target@ == LIBBPF_TARGET@,
        r.message@ == trim(strip_prefixes(msg@, "libbpf:"@)),
{
    let message = strip_and_trim(msg.as_str(), "libbpf:");
    let level = match level {
        PrintLevel::Debug => Level::DEBUG,
        PrintLevel::Info => Level::INFO,
        PrintLevel::Warn => Level::WARN,
    };
    LogLine { level, target: LIBBPF_TARGET, message }
}

/// The one field that callsites have: what an event says.
pub const MESSAGE_FIELD: &'static str = "message";

/// What a callsite is registered with: all that its metadata holds.
#[derive(Debug, Clone, PartialEq, Eq)]
pub struct CallsiteFields {
    pub name: &'static str,
    pub target: &'static str,
    pub level: Level,
    pub file: Option<String>,
    pub line: Option<u32>,
    pub module: Option<&'static str>,
    pub field_names: Vec<&'static str>,
    pub is_span: bool,
}

/// The mathematical value of [`CallsiteFields`].
pub struct CallsiteFieldsView {
    pub name: Seq<char>,
    pub target: Seq<char>,
    pub level: Level,
    pub file: Option<Seq<char>>,
    pub line: Option<u32>,
    pub module: Option<Seq<char>>,
    pub field_names: Seq<Seq<char>>,
    pub is_span: bool,
}

impl View for CallsiteFields {
    type V = CallsiteFieldsView;

    open spec fn view(&self) -> CallsiteFieldsView {
        CallsiteFieldsView {
            name: self.name@,
            target: self.target@,
            level: self.level,
            file: optional_text(self.file),
            line: self.line,
            module: match self.module {
                Some(path) => Some(path@),
                None => None,
            },
            field_names: Seq::new(self.field_names@.len(), |i: int| self.field_names@[i]@),
            is_span: self.is_span,
        }
    }
}

/// What the callsite of a key is registered with: it has no name and no module, its target is
/// that of all events of eBPF programs, and the message is its one field. The file is given
/// relative to where its path and the manifest directory part.
pub open spec fn fields_of(key: CallsiteKeyView, manifest_dir: Seq<char>) -> CallsiteFieldsView {
    CallsiteFieldsView {
        name: ""@,
        target: TARGET@,
        level: key.3,
        file: match key.0 {
            Some(file) => Some(path_of(components_beyond(file, manifest_dir))),
            None => None,
        },
        line: key.1,
        module: None,
        field_names: seq![MESSAGE_FIELD@],
        is_span: key.2,
    }
}

/// The callsites that are registered, each with what was made for it. A callsite is never
/// forgotten.
pub struct Callsites<M> {
    entries: Vec<(CallsiteKey, M)>,
}

/// The map that a list of entries makes.
spec fn entries_map<M>(entries: Seq<(CallsiteKey, M)>) -> Map<CallsiteKeyView, M>
    decreases entries.len(),
{
    if entries.len() == 0 {
        Map::empty()
    } else {
        entries_map(entries.drop_last()).insert(key_view(entries.last().0), entries.last().1)
    }
}

/// Whether no key occurs twice.
spec fn distinct_keys<M>(entries: Seq<(CallsiteKey, M)>) -> bool {
    forall|i: int, j: int|
        0 <= i < j < entries.len() ==> key_view(#[trigger] entries[i].0) != key_view(
            #[trigger] entries[j].0,
        )
}

proof fn lemma_entries_map<M>(entries: Seq<(CallsiteKey, M)>)
    requires
        distinct_keys(entries),
    ensures
        entries_map(entries).dom().finite(),
        entries_map(entries).dom().len() == entries.len(),
        forall|i: int|
            0 <= i < entries.len() ==> #[trigger] entries_map(entries).dom().contains(
                key_view(entries[i].0),
            ) && entries_map(entries)[key_view(entries[i].0)] == entries[i].1,
        forall|k: CallsiteKeyView| #[trigger]
            entries_map(entries).dom().contains(k) ==> exists|i: int|
                0 <= i < entries.len() && key_view(#[trigger] entries[i].0) == k,
    decreases entries.len(),
{
    if entries.len() > 0 {
        let front = entries.drop_last();
        assert(forall|i: int| 0 <= i < front.len() ==> front[i] == entries[i]);
        lemma_entries_map(front);
        let last = key_view(entries.last().0);
        assert(!entries_map(front).dom().contains(last)) by {
            if entries_map(front).dom().contains(last) {
                let i = choose|i: int| 0 <= i < front.len() && key_view(#[trigger] front[i].0) == last;
                assert(entries[i].0 == front[i].0);
                assert(key_view(entries[entries.len() - 1].0) == last);
            }
        }
        assert forall|i: int| 0 <= i < entries.len() implies #[trigger] entries_map(
            entries,
        ).dom().contains(key_view(entries[i].0)) && entries_map(entries)[key_view(entries[i].0)]
            == entries[i].1 by {
            if i < front.len() {
                assert(entries_map(front).dom().contains(key_view(front[i].0)));
            }
        }
        assert forall|k: CallsiteKeyView| #[trigger]
            entries_map(entries).dom().contains(k) implies exists|i: int|
            0 <= i < entries.len() && key_view(#[trigger] entries[i].0) == k by {
            if k == last {
                assert(key_view(entries[entries.len() - 1].0) == k);
            } else {
                let i = choose|i: int| 0 <= i < front.len() && key_view(#[trigger] front[i].0) == k;
                assert(key_view(entries[i].0) == k);
            }
        }
    }
}

impl<M> View for Callsites<M> {
    type V = Map<CallsiteKeyView, M>;

    closed spec fn view(&self) -> Map<CallsiteKeyView, M> {
        entries_map(self.entries@)
    }
}

impl<M> Callsites<M> {
    /// Whether each key is registered once.
    pub closed spec fn wf(&self) -> bool {
        distinct_keys(self.entries@)
    }

    /// No callsites.
    pub fn new() -> (r: Self)
        ensures
            r.wf(),
            r@ == Map::<CallsiteKeyView, M>::empty(),
    {
        Callsites { entries: Vec::new() }
    }

    /// How many callsites are registered.
    pub fn len(&self) -> (r: usize)
        requires
            self.wf(),
        ensures
            self@.dom().finite(),
            r == self@.dom().len(),
    {
        proof {
            lemma_entries_map(self.entries@);
        }
        self.entries.len()
    }
}

/// Whether two optional texts are the same.
fn same_optional_text(a: &Option<String>, b: &Option<String>) -> (r: bool)
    ensures
        r == (optional_text(*a) == optional_text(*b)),
{
    match (a, b) {
        (Some(x), Some(y)) => *x == *y,
        (None, None) => true,
        _ => false,
    }
}

/// Whether two callsite keys are the same.
fn same_key(a: &CallsiteKey, b: &CallsiteKey) -> (r: bool)
    ensures
        r == (key_view(*a) == key_view(*b)),
{
    let same_line = match (a.1, b.1) {
        (Some(x), Some(y)) => x == y,
        (None, None) => true,
        _ => false,
    };
    same_optional_text(&a.0, &b.0) && same_line && a.2 == b.2 && a.3 == b.3
}

/// What asking for a callsite gives and leaves behind: what is registered is given and stays,
/// and what is not becomes registered.
pub open spec fn callsite_step<M>(
    before: Map<CallsiteKeyView, M>,
    key: CallsiteKeyView,
    meta: M,
    after: Map<CallsiteKeyView, M>,
) -> bool {
    if before.dom().contains(key) {
        meta == before[key] && after == before
    } else {
        after == before.insert(key, meta)
    }
}

/// What stands registered for the callsite `key`. Where nothing does, `make` makes it from the
/// fields of the callsite, and it is registered for good. Where something does, nothing is made:
/// `make` need not be fit to be called.
pub fn get_callsite<M: Copy, F: FnOnce(CallsiteFields) -> M>(
    callsites: &mut Callsites<M>,
    key: CallsiteKey,
    manifest_dir: &str,
    make: F,
) -> (meta: M)
    requires
        old(callsites).wf(),
        !old(callsites)@.dom().contains(key_view(key)) ==> forall|fields: CallsiteFields|
            fields@ == fields_of(key_view(key), manifest_dir@) ==> #[trigger] call_requires(
                make,
                (fields,),
            ),
    ensures
        final(callsites).wf(),
        callsite_step(old(callsites)@, key_view(key), meta, final(callsites)@),
        !old(callsites)@.dom().contains(key_view(key)) ==> exists|fields: CallsiteFields|
            {
                &&& fields@ == fields_of(key_view(key), manifest_dir@)
                &&& #[trigger] call_ensures(make, (fields,), meta)
            },
{
    proof {
        lemma_entries_map(callsites.entries@);
    }
    let mut i: usize = 0;
    while i < callsites.entries.len()
        invariant
            *callsites == *old(callsites),
            i <= callsites.entries@.len(),
            forall|j: int|
                0 <= j < i ==> key_view(#[trigger] callsites.entries@[j].0) != key_view(key),
            forall|j: int|
                0 <= j < callsites.entries@.len() ==> #[trigger] callsites@.dom().contains(
                    key_view(callsites.entries@[j].0),
                ) && callsites@[key_view(callsites.entries@[j].0)] == callsites.entries@[j].1,
            callsites.wf(),
        decreases callsites.entries@.len() - i,
    {
        if same_key(&callsites.entries[i].0, &key) {
            assert(callsites@.dom().contains(key_view(callsites.entries@[i as int].0)));
            return callsites.entries[i].1;
        }
        i += 1;
    }
    let (file, line, is_span, level) = key;
    let rel: Option<String> = match &file {
        Some(file) => Some(strip_matching_prefix_components(file.as_str(), manifest_dir)),
        None => None,
    };
    let fields = CallsiteFields {
        name: "",
        target: TARGET,
        level,
        file: rel,
        line,
        module: None,
        field_names: vec![MESSAGE_FIELD],
        is_span,
    };
    assert(fields@.field_names == seq![MESSAGE_FIELD@]);
    let meta = make(fields);
    let ghost before = callsites.entries@;
    callsites.entries.push(((file, line, is_span, level), meta));
    proof {
        assert(callsites.entries@.drop_last() == before);
    }
    meta
}

/// Whether asking for the callsites `keys`, one after the other, gives `metas` and leaves the
/// registered callsites as `states` says: in front of each request, and behind the last.
pub open spec fn callsite_run<M>(
    states: Seq<Map<CallsiteKeyView, M>>,
    keys: Seq<CallsiteKeyView>,
    metas: Seq<M>,
) -> bool {
    &&& states.len() == keys.len() + 1
    &&& metas.len() == keys.len()
    &&& forall|i: int|
        0 <= i < keys.len() ==> callsite_step(states[i], #[trigger] keys[i], metas[i], states[i + 1])
}

/// Whether something is made for the request `i` of such a run: nothing stood registered for its
/// key.
pub open spec fn makes<M>(
    states: Seq<Map<CallsiteKeyView, M>>,
    keys: Seq<CallsiteKeyView>,
    i: int,
) -> bool {
    !states[i].dom().contains(keys[i])
}

/// Whether the request `i` of such a run is given what was made for its key: for itself, or for
/// an earlier request.
pub open spec fn is_given_what_was_made<M>(
    states: Seq<Map<CallsiteKeyView, M>>,
    keys: Seq<CallsiteKeyView>,
    metas: Seq<M>,
    i: int,
) -> bool {
    exists|first: int|
        {
            &&& 0 <= first <= i
            &&& #[trigger] makes(states, keys, first)
            &&& keys[first] == keys[i]
            &&& metas[first] == metas[i]
        }
}

proof fn lemma_callsites_stay<M>(
    states: Seq<Map<CallsiteKeyView, M>>,
    keys: Seq<CallsiteKeyView>,
    metas: Seq<M>,
    from: int,
    to: int,
)
    requires
        callsite_run(states, keys, metas),
        0 <= from < to <= keys.len(),
    ensures
        states[to].dom().contains(keys[from]),
        states[to][keys[from]] == metas[from],
    decreases to - from,
{
    if to > from + 1 {
        lemma_callsites_stay(states, keys, metas, from, to - 1);
        assert(callsite_step(states[to - 1], keys[to - 1], metas[to - 1], states[to]));
    } else {
        assert(callsite_step(states[from], keys[from], metas[from], states[to]));
    }
}

/// One callsite per key, for good: however often keys are asked for, exactly those asked for are
/// registered, each with what was given for it, and asking again for the same key gives the same
/// again.
pub proof fn law_one_callsite_per_key<M>(
    states: Seq<Map<CallsiteKeyView, M>>,
    keys: Seq<CallsiteKeyView>,
    metas: Seq<M>,
)
    requires
        callsite_run(states, keys, metas),
        states[0] == Map::<CallsiteKeyView, M>::empty(),
    ensures
        states.last().dom() == keys.to_set(),
        forall|i: int| 0 <= i < keys.len() ==> states.last()[#[trigger] keys[i]] == metas[i],
        forall|i: int, j: int|
            0 <= i < j < keys.len() && keys[i] == keys[j] ==> metas[i] == metas[j],
    decreases keys.len(),
{
    assert forall|i: int, j: int| 0 <= i < j < keys.len() && keys[i] == keys[j] implies metas[i]
        == metas[j] by {
        lemma_callsites_stay(states, keys, metas, i, j);
        assert(callsite_step(states[j], keys[j], metas[j], states[j + 1]));
    }
    assert forall|i: int| 0 <= i < keys.len() implies states.last()[#[trigger] keys[i]]
        == metas[i] by {
        lemma_callsites_stay(states, keys, metas, i, keys.len() as int);
    }
    if keys.len() == 0 {
        assert(states.last().dom() == keys.to_set());
    } else {
        let n = keys.len() - 1;
        let (s, k, m) = (states.drop_last(), keys.drop_last(), metas.drop_last());
        assert forall|i: int| 0 <= i < k.len() implies callsite_step(
            s[i],
            #[trigger] k[i],
            m[i],
            s[i + 1],
        ) by {
            assert(callsite_step(states[i], keys[i], metas[i], states[i + 1]));
        }
        law_one_callsite_per_key(s, k, m);
        assert(callsite_step(states[n], keys[n], metas[n], states[n + 1]));
        assert forall|key: CallsiteKeyView|
            states.last().dom().contains(key) <==> #[trigger] keys.to_set().contains(key) by {
            assert(k.to_set().contains(key) <==> k.contains(key));
            if k.contains(key) {
                let i = choose|i: int| 0 <= i < k.len() && k[i] == key;
                assert(keys[i] == key);
            }
            if keys.contains(key) && key != keys[n] {
                let i = choose|i: int| 0 <= i < keys.len() && keys[i] == key;
                assert(k[i] == key);
            }
            assert(keys.contains(keys[n]));
        }
        assert(states.last().dom() =~= keys.to_set());
    }
}

/// The request that first asked for the key of the request `i`: what it was given was made for
/// it, and is what the request `i` was given.
proof fn lemma_first_request<M>(
    states: Seq<Map<CallsiteKeyView, M>>,
    keys: Seq<CallsiteKeyView>,
    metas: Seq<M>,
    i: int,
) -> (first: int)
    requires
        callsite_run(states, keys, metas),
        states[0] == Map::<CallsiteKeyView, M>::empty(),
        0 <= i < keys.len(),
    ensures
        0 <= first <= i,
        keys[first] == keys[i],
        metas[first] == metas[i],
        makes(states, keys, first),
{
    lemma_registered_was_asked_for(states, keys, metas, i, keys[i]);
    if states[i].dom().contains(keys[i]) {
        let first = choose|first: int|
            0 <= first < i && keys[first] == keys[i] && #[trigger] makes(states, keys, first);
        lemma_callsites_stay(states, keys, metas, first, i);
        assert(callsite_step(states[i], keys[i], metas[i], states[i + 1]));
        first
    } else {
        i
    }
}

proof fn lemma_registered_was_asked_for<M>(
    states: Seq<Map<CallsiteKeyView, M>>,
    keys: Seq<CallsiteKeyView>,
    metas: Seq<M>,
    to: int,
    key: CallsiteKeyView,
)
    requires
        callsite_run(states, keys, metas),
        states[0] == Map::<CallsiteKeyView, M>::empty(),
        0 <= to <= keys.len(),
    ensures
        states[to].dom().contains(key) ==> exists|first: int|
            0 <= first < to && keys[first] == key && #[trigger] makes(states, keys, first),
    decreases to,
{
    if to > 0 {
        lemma_registered_was_asked_for(states, keys, metas, to - 1, key);
        assert(callsite_step(states[to - 1], keys[to - 1], metas[to - 1], states[to]));
        assert(keys[to - 1] == key && !states[to - 1].dom().contains(key) ==> makes(
            states,
            keys,
            to - 1,
        ));
    }
}

/// Nothing is made twice for a key: however often keys are asked for, something is made for one
/// request per key, the first, and all requests for that key are given just that. So requests for
/// different keys are given what different requests made.
pub proof fn law_made_once_per_key<M>(
    states: Seq<Map<CallsiteKeyView, M>>,
    keys: Seq<CallsiteKeyView>,
    metas: Seq<M>,
)
    requires
        callsite_run(states, keys, metas),
        states[0] == Map::<CallsiteKeyView, M>::empty(),
    ensures
        forall|i: int|
            0 <= i < keys.len() ==> (#[trigger] makes(states, keys, i) <==> !keys.take(i).contains(
                keys[i],
            )),
        forall|i: int|
            0 <= i < keys.len() ==> #[trigger] is_given_what_was_made(states, keys, metas, i),
        forall|first: int, other: int|
            0 <= first < other < keys.len() && #[trigger] makes(states, keys, first)
                && #[trigger] makes(states, keys, other) ==> keys[first] != keys[other],
{
    assert forall|i: int, j: int|
        0 <= i < j < keys.len() && #[trigger] keys[i] == #[trigger] keys[j] implies !makes(
        states,
        keys,
        j,
    ) by {
        lemma_callsites_stay(states, keys, metas, i, j);
    }
    assert forall|i: int| 0 <= i < keys.len() implies #[trigger] is_given_what_was_made(
        states,
        keys,
        metas,
        i,
    ) by {
        let first = lemma_first_request(states, keys, metas, i);
        assert(makes(states, keys, first));
    }
    assert forall|i: int| 0 <= i < keys.len() implies (#[trigger] makes(states, keys, i)
        <==> !keys.take(i).contains(keys[i])) by {
        if keys.take(i).contains(keys[i]) {
            let j = choose|j: int| 0 <= j < i && keys.take(i)[j] == keys[i];
            assert(keys[j] == keys[i]);
        } else {
            let first = lemma_first_request(states, keys, metas, i);
            if first < i {
                assert(keys.take(i)[first] == keys[i]);
            }
        }
    }
}

/// Callsites are told apart exactly as their keys are: where what is made for a new callsite is
/// never what was given before, two requests are given the same where their keys are the same,
/// and nowhere else.
pub proof fn law_callsites_differ_as_their_keys_do<M>(
    states: Seq<Map<CallsiteKeyView, M>>,
    keys: Seq<CallsiteKeyView>,
    metas: Seq<M>,
)
    requires
        callsite_run(states, keys, metas),
        states[0] == Map::<CallsiteKeyView, M>::empty(),
        forall|i: int, j: int|
            0 <= j < i < keys.len() && makes(states, keys, i) ==> #[trigger] metas[i] != #[trigger] metas[j],
    ensures
        forall|i: int, j: int|
            0 <= i < keys.len() && 0 <= j < keys.len() ==> (#[trigger] metas[i]
                == #[trigger] metas[j] <==> keys[i] == keys[j]),
{
    assert forall|i: int, j: int| 0 <= i < keys.len() && 0 <= j < keys.len() implies (
    #[trigger] metas[i] == #[trigger] metas[j] <==> keys[i] == keys[j]) by {
        law_one_callsite_per_key(states, keys, metas);
        let first = lemma_first_request(states, keys, metas, i);
        let other = lemma_first_request(states, keys, metas, j);
        if keys[i] != keys[j] {
            assert(metas[first] != metas[other]);
        }
    }
}

/// How verbose a level is.
pub open spec fn verbosity(level: Level) -> int {
    match level {
        Level::ERROR => 1,
        Level::WARN => 2,
        Level::INFO => 3,
        Level::DEBUG => 4,
        Level::TRACE => 5,
    }
}

/// Whether a level gets through where `max` is the most verbose one that does. Nothing gets
/// through where there is no such level.
pub open spec fn is_enabled(level: Level, max: Option<Level>) -> bool {
    match max {
        Some(max) => verbosity(level) <= verbosity(max),
        None => false,
    }
}

/// How verbose a level is.
fn verbosity_of(level: Level) -> (r: u8)
    ensures
        r == verbosity(level),
{
    match level {
        Level::ERROR => 1,
        Level::WARN => 2,
        Level::INFO => 3,
        Level::DEBUG => 4,
        Level::TRACE => 5,
    }
}

/// Whether `level` gets through where `max` is the most verbose level that does.
pub fn enabled(level: Level, max: Option<Level>) -> (r: bool)
    ensures
        r == is_enabled(level, max),
{
    match max {
        Some(max) => verbosity_of(level) <= verbosity_of(max),
        None => false,
    }
}

/// Calls `LevelFilter::current` of the `tracing` crate: the most verbose level that any active
/// subscriber lets through, or `None` where all is off. It changes with the subscribers of the
/// process, so nothing is said of which it is.
#[verifier::external_body]
fn current_max_level() -> (max: Option<Level>) {
    match ::tracing::level_filters::LevelFilter::current().into_level() {
        None => None,
        Some(::tracing::Level::ERROR) => Some(Level::ERROR),
        Some(::tracing::Level::WARN) => Some(Level::WARN),
        Some(::tracing::Level::INFO) => Some(Level::INFO),
        Some(::tracing::Level::DEBUG) => Some(Level::DEBUG),
        Some(_) => Some(Level::TRACE),
    }
}

/// Whether `max` is what asking for the most verbose level that gets through can give.
pub closed spec fn is_current_max(max: Option<Level>) -> bool {
    call_ensures(current_max_level, (), max)
}

/// The spans that are open: for each CPU a stack, the innermost span last. A span is held with
/// the name it was opened under. `S` is what keeps a span open.
pub struct Spans<S> {
    stacks: Vec<VecDeque<(String, S)>>,
}

/// The mathematical value of a stack of spans.
pub type StackView<S> = Seq<(Seq<char>, S)>;

/// The value of a stack of spans.
pub open spec fn stack_view<S>(stack: Seq<(String, S)>) -> StackView<S> {
    stack.map_values(|span: (String, S)| (span.0@, span.1))
}

/// The value of the stacks of all CPUs.
pub open spec fn stacks_view<S>(stacks: Seq<VecDeque<(String, S)>>) -> Seq<StackView<S>> {
    stacks.map_values(|stack: VecDeque<(String, S)>| stack_view(stack@))
}

impl<S> View for Spans<S> {
    type V = Seq<StackView<S>>;

    closed spec fn view(&self) -> Seq<StackView<S>> {
        stacks_view(self.stacks@)
    }
}

/// The stacks, with empty ones added so that `cpu` has one.
pub open spec fn grown<S>(stacks: Seq<StackView<S>>, cpu: nat) -> Seq<StackView<S>> {
    if cpu < stacks.len() {
        stacks
    } else {
        stacks + Seq::new((cpu + 1 - stacks.len()) as nat, |i: int| Seq::empty())
    }
}

/// A stack after the end of the span `name`: without the innermost span of that name and all
/// that were opened inside it. Where there is no such span, all are closed.
pub open spec fn closed_through<S>(stack: StackView<S>, name: Seq<char>) -> StackView<S>
    decreases stack.len(),
{
    if stack.len() == 0 {
        stack
    } else if stack.last().0 == name {
        stack.drop_last()
    } else {
        closed_through(stack.drop_last(), name)
    }
}

/// The stacks after an event has come in: the end of a span closes spans, and a message and the
/// start of a span close none. The span that the latter asks for is entered once it is open.
pub open spec fn stacks_after<S>(stacks: Seq<StackView<S>>, event: EventView) -> Seq<StackView<S>> {
    let all = grown(stacks, event.cpu);
    match event.kind {
        Kind::EndSpan => all.update(
            event.cpu as int,
            closed_through(all[event.cpu as int], event.content),
        ),
        _ => all,
    }
}

/// Something to send on, and the CPU whose innermost span is its parent.
#[derive(Debug, PartialEq, Eq)]
pub struct Dispatch {
    pub cpu: usize,
    pub callsite: CallsiteKey,
    pub content: String,
}

/// What an event asks for.
#[derive(Debug, PartialEq, Eq)]
pub enum Action {
    /// Nothing.
    Nothing,
    /// Send a message.
    SendMessage(Dispatch),
    /// Open a span and enter it on its CPU.
    OpenSpan(Dispatch),
}

/// The mathematical value of a [`Dispatch`].
pub struct DispatchView {
    pub cpu: nat,
    pub callsite: CallsiteKeyView,
    pub content: Seq<char>,
}

/// The mathematical value of an [`Action`].
pub enum ActionView {
    Nothing,
    SendMessage(DispatchView),
    OpenSpan(DispatchView),
}

impl View for Dispatch {
    type V = DispatchView;

    open spec fn view(&self) -> DispatchView {
        DispatchView {
            cpu: self.cpu as nat,
            callsite: key_view(self.callsite),
            content: self.content@,
        }
    }
}

impl View for Action {
    type V = ActionView;

    open spec fn view(&self) -> ActionView {
        match *self {
            Action::Nothing => ActionView::Nothing,
            Action::SendMessage(dispatch) => ActionView::SendMessage(dispatch@),
            Action::OpenSpan(dispatch) => ActionView::OpenSpan(dispatch@),
        }
    }
}

/// What an event asks for where `max` is the most verbose level that gets through.
pub open spec fn action_of(event: EventView, max: Option<Level>) -> ActionView {
    match event.kind {
        Kind::Message(level) => if is_enabled(level, max) {
            ActionView::SendMessage(
                DispatchView {
                    cpu: event.cpu,
                    callsite: callsite_of(event)->0,
                    content: event.content,
                },
            )
        } else {
            ActionView::Nothing
        },
        Kind::StartSpan(level) => if is_enabled(level, max) {
            ActionView::OpenSpan(
                DispatchView {
                    cpu: event.cpu,
                    callsite: callsite_of(event)->0,
                    content: event.content,
                },
            )
        } else {
            ActionView::Nothing
        },
        Kind::EndSpan => ActionView::Nothing,
    }
}

impl<S> Spans<S> {
    /// No open spans on any of `cpus` CPUs.
    pub fn new(cpus: usize) -> (r: Self)
        ensures
            r@ == Seq::new(cpus as nat, |i: int| Seq::<(Seq<char>, S)>::empty()),
    {
        let mut spans = Spans { stacks: Vec::new() };
        spans.grow(cpus);
        spans
    }

    /// Adds empty stacks until there are `cpus`.
    fn grow(&mut self, cpus: usize)
        ensures
            final(self)@ == if cpus <= old(self)@.len() {
                old(self)@
            } else {
                old(self)@ + Seq::new((cpus - old(self)@.len()) as nat, |i: int| Seq::empty())
            },
    {
        while self.stacks.len() < cpus
            invariant
                old(self)@.len() <= self@.len(),
                self@.len() <= cpus || self@.len() == old(self)@.len(),
                self@ == old(self)@ + Seq::new(
                    (self@.len() - old(self)@.len()) as nat,
                    |i: int| Seq::empty(),
                ),
            decreases cpus - self.stacks@.len(),
        {
            let ghost before = self@;
            let stack: VecDeque<(String, S)> = VecDeque::new();
            self.stacks.push(stack);
            assert(stack_view(stack@) == Seq::<(Seq<char>, S)>::empty());
            assert(self@ == before.push(Seq::empty()));
        }
    }

    /// The innermost span that is open on `cpu`: the parent of what comes next there.
    pub fn parent(&self, cpu: usize) -> (r: Option<&S>)
        ensures
            match r {
                Some(span) => cpu < self@.len() && self@[cpu as int].len() > 0 && *span
                    == self@[cpu as int].last().1,
                None => cpu >= self@.len() || self@[cpu as int].len() == 0,
            },
    {
        if cpu >= self.stacks.len() {
            return None;
        }
        let len: usize = self.stacks[cpu].len();
        if len == 0 {
            None
        } else {
            Some(&self.stacks[cpu][len - 1].1)
        }
    }

    /// Puts a span on the stack of `cpu`, inside all that are open there.
    pub fn enter(&mut self, cpu: usize, name: String, span: S)
        requires
            cpu < old(self)@.len(),
        ensures
            final(self)@ == old(self)@.update(
                cpu as int,
                old(self)@[cpu as int].push((name@, span)),
            ),
    {
        let ghost before = self.stacks@;
        self.stacks[cpu].push_back((name, span));
        proof {
            assert(stack_view(self.stacks@[cpu as int]@) == stack_view(before[cpu as int]@).push(
                (name@, span),
            ));
            assert(self@ == old(self)@.update(
                cpu as int,
                old(self)@[cpu as int].push((name@, span)),
            ));
        }
    }

    /// Closes spans on `cpu`, from the innermost on, until one of the name `name` is closed.
    fn close(&mut self, cpu: usize, name: &String)
        requires
            cpu < old(self)@.len(),
        ensures
            final(self)@ == old(self)@.update(
                cpu as int,
                closed_through(old(self)@[cpu as int], name@),
            ),
    {
        let ghost before = self.stacks@;
        let mut open = true;
        while open
            invariant
                cpu < before.len(),
                self.stacks@.len() == before.len(),
                forall|i: int|
                    0 <= i < before.len() && i != cpu ==> self.stacks@[i] == before[i],
                open ==> closed_through(stack_view(self.stacks@[cpu as int]@), name@)
                    == closed_through(stack_view(before[cpu as int]@), name@),
                !open ==> stack_view(self.stacks@[cpu as int]@) == closed_through(
                    stack_view(before[cpu as int]@),
                    name@,
                ),
            decreases self.stacks@[cpu as int]@.len(), open as int,
        {
            let ghost stack = stack_view(self.stacks@[cpu as int]@);
            match self.stacks[cpu].pop_back() {
                None => {
                    open = false;
                },
                Some((span_name, _span)) => {
                    assert(stack_view(self.stacks@[cpu as int]@) == stack.drop_last());
                    if span_name == *name {
                        open = false;
                    }
                },
            }
        }
        assert(self@ == old(self)@.update(
            cpu as int,
            closed_through(old(self)@[cpu as int], name@),
        ));
    }
}

/// What an event asks for and does to the open spans, where `max` is the most verbose level
/// that gets through.
pub fn emit_at<S>(spans: &mut Spans<S>, event: Event, max: Option<Level>) -> (action: Action)
    requires
        event.cpu < usize::MAX,
    ensures
        final(spans)@ == stacks_after(old(spans)@, event@),
        action@ == action_of(event@, max),
{
    let cpu: usize = event.cpu;
    spans.grow(cpu + 1);
    assert(spans@ == grown(old(spans)@, cpu as nat));
    match event.kind {
        Kind::Message(level) => {
            if enabled(level, max) {
                let content = event.content.clone();
                match CallsiteKey::try_from(event) {
                    Ok(callsite) => Action::SendMessage(Dispatch { cpu, callsite, content }),
                    Err(_) => Action::Nothing,
                }
            } else {
                Action::Nothing
            }
        },
        Kind::StartSpan(level) => {
            if enabled(level, max) {
                let content = event.content.clone();
                match CallsiteKey::try_from(event) {
                    Ok(callsite) => Action::OpenSpan(Dispatch { cpu, callsite, content }),
                    Err(_) => Action::Nothing,
                }
            } else {
                Action::Nothing
            }
        },
        Kind::EndSpan => {
            spans.close(cpu, &event.content);
            Action::Nothing
        },
    }
}

/// What an event asks for and does to the open spans, where the subscribers of the process say
/// which levels get through.
pub fn emit<S>(spans: &mut Spans<S>, event: Event) -> (action: Action)
    requires
        event.cpu < usize::MAX,
    ensures
        final(spans)@ == stacks_after(old(spans)@, event@),
        exists|max: Option<Level>|
            #[trigger] is_current_max(max) && action@ == action_of(event@, max),
{
    let max = current_max_level();
    assert(is_current_max(max));
    emit_at(spans, event, max)
}

/// Whether a map of this name is one that events come from.
pub open spec fn is_events_map(name: String) -> bool {
    name@ == EVENTS_MAP@
}

/// Which of the maps of these names events come from, in their order.
pub fn events_maps(names: &Vec<String>) -> (r: Vec<usize>)
    ensures
        forall|i: int, j: int| 0 <= i < j < r@.len() ==> r@[i] < r@[j],
        forall|i: int| 0 <= i < names@.len() && #[trigger] is_events_map(names@[i]) ==> r@.contains(
            i as usize,
        ),
        forall|j: int|
            0 <= j < r@.len() ==> #[trigger] r@[j] < names@.len() && is_events_map(
                names@[r@[j] as int],
            ),
{
    let wanted = EVENTS_MAP.to_owned();
    let mut r: Vec<usize> = Vec::new();
    let mut at: usize = 0;
    while at < names.len()
        invariant
            wanted@ == EVENTS_MAP@,
            at <= names@.len(),
            forall|i: int, j: int| 0 <= i < j < r@.len() ==> r@[i] < r@[j],
            forall|i: int| 0 <= i < at && #[trigger] is_events_map(names@[i]) ==> r@.contains(
                i as usize,
            ),
            forall|j: int| 0 <= j < r@.len() ==> #[trigger] r@[j] < at && is_events_map(
                names@[r@[j] as int],
            ),
        decreases names@.len() - at,
    {
        let ghost before = r@;
        if names[at] == wanted {
            r.push(at);
            proof {
                assert(r@[before.len() as int] == at);
                assert forall|i: int| 0 <= i < at && is_events_map(names@[i]) implies r@.contains(
                    i as usize,
                ) by {
                    let j = choose|j: int| 0 <= j < before.len() && before[j] == i as usize;
                    assert(r@[j] == i as usize);
                }
            }
        }
        at += 1;
    }
    r
}

/// What the reader of the ring buffer does next.
#[derive(Debug, PartialEq, Eq)]
pub enum Step {
    /// Emit an event.
    Emit(Event),
    /// Write a line to the log.
    Log(LogLine),
    /// Stop, for nothing more will come.
    Stop,
}

/// Whether `step` is what the reader of the ring buffer does with what it received.
pub open spec fn is_step_for(
    received: Option<Result<Event, EventDecodeError>>,
    step: Step,
) -> bool {
    match received {
        Some(Ok(event)) => step == Step::Emit(event),
        Some(Err(e)) => step matches Step::Log(line) && {
            &&& line.level == Level::WARN
            &&& line.target@ == TARGET@
            &&& line.message@ == "Failed to decode event: "@ + error_text(e)
        },
        None => step == Step::Stop,
    }
}

/// What the reader of the ring buffer does with what it received: it emits an event, warns of a
/// record that did not decode, and stops where there is nothing more to receive.
pub fn next_step(received: Option<Result<Event, EventDecodeError>>) -> (r: Step)
    ensures
        is_step_for(received, r),
{
    match received {
        Some(Ok(event)) => Step::Emit(event),
        Some(Err(e)) => {
            let message = "Failed to decode event: ".to_owned().concat(e.message().as_str());
            Step::Log(LogLine { level: Level::WARN, target: TARGET, message })
        },
        None => Step::Stop,
    }
}

/// Whether a reader that goes on until it is to stop received `received`, one after the other,
/// and did `steps`.
pub open spec fn reader_run(
    received: Seq<Option<Result<Event, EventDecodeError>>>,
    steps: Seq<Step>,
) -> bool {
    &&& steps.len() == received.len()
    &&& forall|i: int| 0 <= i < steps.len() ==> is_step_for(received[i], #[trigger] steps[i])
    &&& forall|i: int| 0 <= i < steps.len() - 1 ==> #[trigger] steps[i] != Step::Stop
}

/// The reader handles everything it receives once, in the order in which it came: each event is
/// emitted, and each record that did not decode is warned of. It stops where nothing more will
/// come and nowhere else: neither an event nor a record that did not decode ends it.
pub proof fn law_reader_handles_all_until_the_end(
    received: Seq<Option<Result<Event, EventDecodeError>>>,
    steps: Seq<Step>,
)
    requires
        reader_run(received, steps),
    ensures
        steps.len() == received.len(),
        forall|i: int|
            0 <= i < received.len() - 1 ==> (#[trigger] received[i]) is Some && !(steps[i] is Stop),
        forall|i: int|
            0 <= i < received.len() ==> match #[trigger] received[i] {
                Some(Ok(event)) => steps[i] == Step::Emit(event),
                Some(Err(_)) => steps[i] is Log,
                None => i == received.len() - 1 && steps[i] is Stop,
            },
{
    assert forall|i: int| 0 <= i < received.len() implies is_step_for(
        #[trigger] received[i],
        steps[i],
    ) && (i < received.len() - 1 ==> steps[i] != Step::Stop) by {
        assert(is_step_for(received[i], steps[i]));
    }
}

/// The end of a span closes it and all that was opened inside it, and nothing that was open
/// before it.
pub proof fn law_end_closes_its_span<S>(
    outer: StackView<S>,
    name: Seq<char>,
    span: S,
    inner: StackView<S>,
)
    requires
        forall|i: int| 0 <= i < inner.len() ==> (#[trigger] inner[i]).0 != name,
    ensures
        closed_through(outer.push((name, span)) + inner, name) == outer,
    decreases inner.len(),
{
    let stack = outer.push((name, span)) + inner;
    if inner.len() > 0 {
        assert(inner[inner.len() - 1].0 != name);
        assert(stack.last() == inner.last());
        assert(stack.drop_last() == outer.push((name, span)) + inner.drop_last());
        law_end_closes_its_span(outer, name, span, inner.drop_last());
    } else {
        assert(stack.drop_last() == outer);
    }
}

/// The end of a span that is not open closes all that is.
pub proof fn law_end_without_start_closes_all<S>(stack: StackView<S>, name: Seq<char>)
    requires
        forall|i: int| 0 <= i < stack.len() ==> (#[trigger] stack[i]).0 != name,
    ensures
        closed_through(stack, name) == Seq::<(Seq<char>, S)>::empty(),
    decreases stack.len(),
{
    if stack.len() > 0 {
        assert(stack[stack.len() - 1].0 != name);
        law_end_without_start_closes_all(stack.drop_last(), name);
    }
}

/// An event leaves the spans of other CPUs as they are, and its own CPU has a stack afterwards,
/// whether or not it had one.
pub proof fn law_event_touches_its_cpu_only<S>(stacks: Seq<StackView<S>>, event: EventView)
    ensures
        stacks_after(stacks, event).len() == if event.cpu < stacks.len() {
            stacks.len()
        } else {
            event.cpu + 1
        },
        forall|cpu: int|
            0 <= cpu < stacks.len() && cpu != event.cpu ==> stacks_after(stacks, event)[cpu]
                == stacks[cpu],
        forall|cpu: int|
            stacks.len() <= cpu < stacks_after(stacks, event).len() ==> (#[trigger] stacks_after(
                stacks,
                event,
            )[cpu]).len() == 0,
{
}

/// A span that is opened and ended leaves no trace: once the span that the start asked for has
/// been entered and its end has come in, the stacks are as if neither had.
pub proof fn law_span_leaves_no_trace<S>(
    stacks: Seq<StackView<S>>,
    start: EventView,
    span: S,
    end: EventView,
)
    requires
        start.kind is StartSpan,
        end.kind is EndSpan,
        end.cpu == start.cpu,
        end.content == start.content,
    ensures
        ({
            let cpu = start.cpu as int;
            let started = stacks_after(stacks, start);
            let entered = started.update(cpu, started[cpu].push((start.content, span)));
            stacks_after(entered, end) == grown(stacks, start.cpu)
        }),
{
    let cpu = start.cpu as int;
    let started = stacks_after(stacks, start);
    let entered = started.update(cpu, started[cpu].push((start.content, span)));
    assert(entered[cpu].drop_last() == started[cpu]);
    assert(stacks_after(entered, end) == started);
}

/// Where a level gets through, so does every less verbose one.
pub proof fn law_less_verbose_levels_get_through(level: Level, other: Level, max: Option<Level>)
    requires
        is_enabled(level, max),
        verbosity(other) <= verbosity(level),
    ensures
        is_enabled(other, max),
{
}

/// What is too verbose to get through asks for nothing and closes nothing.
pub proof fn law_filtered_event_does_nothing<S>(
    stacks: Seq<StackView<S>>,
    event: EventView,
    max: Option<Level>,
)
    requires
        event.kind matches Kind::Message(level) ==> !is_enabled(level, max),
        event.kind matches Kind::StartSpan(level) ==> !is_enabled(level, max),
        !(event.kind is EndSpan),
    ensures
        action_of(event, max) == ActionView::Nothing,
        stacks_after(stacks, event) == grown(stacks, event.cpu),
{
}

/// What is sent on belongs to the callsite of its event and says what its event says, on the
/// CPU of its event.
pub proof fn law_what_is_sent_is_the_event(event: EventView, max: Option<Level>)
    ensures
        match action_of(event, max) {
            ActionView::Nothing => true,
            ActionView::SendMessage(dispatch) => {
                &&& event.kind is Message
                &&& callsite_of(event) == Some(dispatch.callsite)
                &&& dispatch.content == event.content
                &&& dispatch.cpu == event.cpu
            },
            ActionView::OpenSpan(dispatch) => {
                &&& event.kind is StartSpan
                &&& callsite_of(event) == Some(dispatch.callsite)
                &&& dispatch.content == event.content
                &&& dispatch.cpu == event.cpu
            },
        },
{
}

/// What is sent on, and every span that is opened, goes out under the target of the events of
/// eBPF programs, with the level and the line of its event, and with its message as the one field.
pub proof fn law_what_is_sent_has_the_metadata_of_its_event(
    event: EventView,
    max: Option<Level>,
    manifest_dir: Seq<char>,
)
    ensures
        match action_of(event, max) {
            ActionView::Nothing => true,
            ActionView::SendMessage(dispatch) => {
                let fields = fields_of(dispatch.callsite, manifest_dir);
                &&& fields.target == TARGET@
                &&& event.kind == Kind::Message(fields.level)
                &&& fields.line == event.line
                &&& fields.file is Some <==> event.file is Some
                &&& fields.field_names == seq![MESSAGE_FIELD@]
                &&& !fields.is_span
            },
            ActionView::OpenSpan(dispatch) => {
                let fields = fields_of(dispatch.callsite, manifest_dir);
                &&& fields.target == TARGET@
                &&& event.kind == Kind::StartSpan(fields.level)
                &&& fields.line == event.line
                &&& fields.file is Some <==> event.file is Some
                &&& fields.field_names == seq![MESSAGE_FIELD@]
                &&& fields.is_span
            },
        },
{
}

/// Every event that a record decodes to can be emitted: its CPU is small enough.
pub proof fn law_decoded_events_can_be_emitted(
    buf: Seq<u8>,
    order: ByteOrder,
    require_source_loc: bool,
)
    requires
        decode_failure(buf, require_source_loc) is None,
    ensures
        decoded(buf, order).cpu < usize::MAX,
{
    law_decoded_event_fits(buf, order, require_source_loc);
}

/// Levels grow more verbose from `ERROR` to `TRACE`, and a level gets through exactly where it is
/// no more verbose than the most verbose that does. Where all is off, none does.
pub proof fn law_levels_get_through_up_to_the_most_verbose(level: Level, max: Level)
    ensures
        verbosity(Level::ERROR) < verbosity(Level::WARN) < verbosity(Level::INFO) < verbosity(
            Level::DEBUG,
        ) < verbosity(Level::TRACE),
        is_enabled(level, Some(max)) <==> verbosity(level) <= verbosity(max),
        is_enabled(level, Some(level)),
        is_enabled(level, Some(Level::TRACE)),
        is_enabled(Level::ERROR, Some(max)),
        is_enabled(level, Some(max)) && is_enabled(max, Some(level)) ==> level == max,
        !is_enabled(level, None),
{
}

/// Whether something sent on is what an event of the given level and kind says.
pub open spec fn tells(dispatch: Dispatch, event: Event, is_span: bool, level: Level) -> bool {
    &&& dispatch.cpu == event.cpu
    &&& dispatch.content@ == event.content@
    &&& dispatch.callsite.0 is Some <==> event.file is Some
    &&& event.file is Some ==> dispatch.callsite.0->0@ == event.file->0@
    &&& dispatch.callsite.1 == event.line
    &&& dispatch.callsite.2 == is_span
    &&& dispatch.callsite.3 == level
}

/// Nothing that gets through is lost, and nothing else is sent: a message is sent exactly where
/// its level gets through, the start of a span opens one exactly where its level does, each with
/// all that its event says, and the end of a span sends nothing.
pub proof fn law_nothing_that_gets_through_is_lost(event: Event, max: Option<Level>, action: Action)
    requires
        action@ == action_of(event@, max),
    ensures
        match event.kind {
            Kind::Message(level) => if is_enabled(level, max) {
                action matches Action::SendMessage(dispatch) && tells(dispatch, event, false, level)
            } else {
                action is Nothing
            },
            Kind::StartSpan(level) => if is_enabled(level, max) {
                action matches Action::OpenSpan(dispatch) && tells(dispatch, event, true, level)
            } else {
                action is Nothing
            },
            Kind::EndSpan => action is Nothing,
        },
{
}

/// The end of a span, as the stacks show it: on its CPU the innermost span of its name is closed
/// with all that were opened inside it, and what was open before it stays.
pub proof fn law_end_event_closes_its_span<S>(
    stacks: Seq<StackView<S>>,
    end: EventView,
    outer: StackView<S>,
    span: S,
    inner: StackView<S>,
)
    requires
        end.kind is EndSpan,
        end.cpu < stacks.len(),
        stacks[end.cpu as int] == outer.push((end.content, span)) + inner,
        forall|i: int| 0 <= i < inner.len() ==> (#[trigger] inner[i]).0 != end.content,
    ensures
        stacks_after(stacks, end) == stacks.update(end.cpu as int, outer),
{
    law_end_closes_its_span(outer, end.content, span, inner);
}

/// The end of a span that is not open, as the stacks show it: on its CPU all is closed.
pub proof fn law_end_event_without_start_closes_all<S>(stacks: Seq<StackView<S>>, end: EventView)
    requires
        end.kind is EndSpan,
        end.cpu < stacks.len() ==> forall|i: int|
            0 <= i < stacks[end.cpu as int].len() ==> (#[trigger] stacks[end.cpu as int][i]).0
                != end.content,
    ensures
        stacks_after(stacks, end).len() > end.cpu,
        stacks_after(stacks, end)[end.cpu as int].len() == 0,
        end.cpu < stacks.len() ==> stacks_after(stacks, end) == stacks.update(
            end.cpu as int,
            Seq::empty(),
        ),
{
    if end.cpu < stacks.len() {
        law_end_without_start_closes_all(stacks[end.cpu as int], end.content);
    } else {
        let none = Seq::<(Seq<char>, S)>::empty();
        law_end_without_start_closes_all(none, end.content);
        law_event_touches_its_cpu_only(stacks, end);
    }
}

/// Only the end of a span closes spans: after a message or the start of a span every stack is as
/// it was, whether or not its level gets through.
pub proof fn law_only_ends_close_spans<S>(stacks: Seq<StackView<S>>, event: EventView)
    requires
        !(event.kind is EndSpan),
    ensures
        stacks_after(stacks, event).len() > event.cpu,
        stacks_after(stacks, event).take(stacks.len() as int) == stacks,
        forall|cpu: int|
            stacks.len() <= cpu < stacks_after(stacks, event).len() ==> (#[trigger] stacks_after(
                stacks,
                event,
            )[cpu]).len() == 0,
{
}

/// What is opened inside a span is gone with it: once the span that a start asked for has been
/// entered, whatever other spans were entered on top of it, its end brings back the stacks from
/// before it started.
pub proof fn law_end_brings_back_what_was_before<S>(
    stacks: Seq<StackView<S>>,
    start: EventView,
    span: S,
    inner: StackView<S>,
    end: EventView,
)
    requires
        start.cpu < stacks.len(),
        start.kind is StartSpan,
        end.kind is EndSpan,
        end.cpu == start.cpu,
        end.content == start.content,
        forall|i: int| 0 <= i < inner.len() ==> (#[trigger] inner[i]).0 != start.content,
    ensures
        ({
            let cpu = start.cpu as int;
            let started = stacks_after(stacks, start);
            let entered = started.update(
                cpu,
                started[cpu].push((start.content, span)) + inner,
            );
            stacks_after(entered, end) == stacks
        }),
{
    let cpu = start.cpu as int;
    let started = stacks_after(stacks, start);
    law_only_ends_close_spans(stacks, start);
    law_event_touches_its_cpu_only(stacks, start);
    assert(started == stacks) by {
        assert(started.take(stacks.len() as int) == started);
    }
    let entered = started.update(cpu, started[cpu].push((start.content, span)) + inner);
    law_end_event_closes_its_span(entered, end, stacks[cpu], span, inner);
    assert(entered.update(cpu, stacks[cpu]) == stacks);
}

/// What a callsite is made from is its key: level, line and kind are those of the key, the target
/// is `bpf`, the message is the one field, and there is neither a name nor a module. A key with a
/// file has a file that keeps exactly the components behind those that it shares with the manifest
/// directory at the front, `shared` many. So a file that shares none keeps them all.
pub proof fn law_callsite_is_made_from_its_key(
    key: CallsiteKey,
    manifest_dir: Seq<char>,
    shared: int,
    fields: CallsiteFields,
)
    requires
        fields@ == fields_of(key_view(key), manifest_dir),
        key.0 matches Some(file) ==> {
            let (own, base) = (path_components(file@), path_components(manifest_dir));
            &&& 0 <= shared <= own.len()
            &&& shared <= base.len()
            &&& forall|i: int| 0 <= i < shared ==> #[trigger] own[i] == base[i]
            &&& shared < own.len() && shared < base.len() ==> own[shared] != base[shared]
        },
    ensures
        match (key.0, fields.file) {
            (Some(file), Some(rel)) => {
                &&& path_components(rel@) == path_components(file@).skip(shared)
                &&& rel@ == path_of(path_components(file@).skip(shared))
                &&& shared == 0 ==> path_components(rel@) == path_components(file@)
            },
            (None, None) => true,
            _ => false,
        },
        fields.level == key.3,
        fields.line == key.1,
        fields.is_span == key.2,
        fields.target@ == "bpf"@,
        fields.name@ == ""@,
        fields.module is None,
        fields.field_names@.len() == 1,
        fields.field_names@[0]@ == "message"@,
{
    if key.0 is Some {
        let file = key.0->0@;
        law_stripped_path_keeps_what_is_not_shared(file, manifest_dir, shared);
        assert(path_components(file).skip(0) == path_components(file));
    }
    assert(fields@.field_names == seq![MESSAGE_FIELD@]);
    assert(fields@.field_names.len() == 1);
    assert(fields@.field_names[0] == fields.field_names@[0]@);
}

/// Events come from a map exactly where it has the name of the events map, to the letter.
pub proof fn law_events_map_is_known_by_its_name(name: String)
    ensures
        is_events_map(name) <==> name@ == "bpf_tracing_events"@,
{
}

/// A record that did not decode is not passed over in silence: the reader warns, under the target
/// of the events of eBPF programs, and says what the error says.
pub proof fn law_reader_tells_what_did_not_decode(e: EventDecodeError, step: Step)
    requires
        is_step_for(Some(Err(e)), step),
    ensures
        step matches Step::Log(line) && {
            &&& line.level == Level::WARN
            &&& line.target@ == "bpf"@
            &&& line.message@ == "Failed to decode event: "@ + error_text(e)
        },
{
}

} // verus!
