//! Operations on a hash map that lives in the kernel.
//!
//! An [`Operation`] says which command the kernel is to run next, takes the reply, and either
//! goes on with another command or ends with an outcome. It runs no command itself.
use std::collections::VecDeque;
use vstd::prelude::*;

verus! {

/// What an update does with a key, depending on whether the map holds it.
#[derive(Debug, Clone, Copy, PartialEq, Eq, Structural)]
pub enum UpdateMode {
    /// It sets the value of the key.
    Any,
    /// It sets the value of a key that the map does not hold.
    NoExist,
    /// It sets the value of a key that the map holds.
    Exist,
}

/// A command to the kernel.
#[derive(Debug, PartialEq, Eq)]
pub enum Command<K, V> {
    /// The value of a key.
    Lookup(K),
    /// Set the value of a key.
    Update(K, V, UpdateMode),
    /// Remove a key.
    Delete(K),
    /// All keys.
    Keys,
    /// Set the values of many keys.
    UpdateBatch(Vec<(K, V)>),
    /// Remove many keys.
    DeleteBatch(Vec<K>),
}

/// Why the kernel did not run a command.
#[derive(Debug, Clone, Copy, PartialEq, Eq, Structural)]
pub enum MapError {
    /// The map does not hold the key.
    NotFound,
    /// The map holds the key already.
    AlreadyExists,
    /// Another error.
    Other,
    /// The reply does not belong to the command.
    UnexpectedReply,
}

/// The reply to a command.
#[derive(Debug, PartialEq, Eq)]
pub enum Reply<K, V> {
    /// The value of the key, if the map holds it.
    Value(Option<V>),
    /// The keys of the map.
    Keys(VecDeque<K>),
    /// The command was run.
    Done,
    /// The command was not run.
    Failed(MapError),
}

/// What an operation ends with.
#[derive(Debug, PartialEq, Eq)]
pub enum Outcome<K, V> {
    Value(Option<V>),
    Flag(bool),
    Count(usize),
    Entries(Vec<(K, V)>),
    Unit,
}

/// An operation on the map, as far as it has come.
#[derive(Debug, PartialEq, Eq)]
pub enum Operation<K, V> {
    /// The value of a key.
    Get(K),
    /// Whether the map holds a key.
    ContainsKey(K),
    /// Set the value of a key, and tell the one that it had.
    Insert(K, V),
    /// The value that the key had is known.
    InsertOver(K, V, Option<V>),
    /// Set the value of a key that the map does not hold, and tell whether that was so.
    InsertNew(K, V),
    /// Set the value of a key that the map holds, and tell whether that was so.
    Replace(K, V),
    /// Remove a key, and tell the value that it had.
    Remove(K),
    /// The value that the key had is known.
    RemoveFound(K, V),
    /// How many keys the map holds.
    Len,
    /// All keys with their values.
    Iter,
    /// One key is looked up, the others are to follow.
    IterRest(K, VecDeque<K>, Vec<(K, V)>),
    /// Remove all keys.
    Clear,
    /// One key is removed, the others are to follow.
    ClearRest(K, VecDeque<K>),
    /// Set the values of many keys.
    InsertBatch(Vec<(K, V)>),
    /// Remove many keys.
    RemoveBatch(Vec<K>),
}

/// Where an operation stands after a reply.
#[derive(Debug, PartialEq, Eq)]
pub enum Progress<K, V> {
    /// It goes on.
    Continue(Operation<K, V>),
    /// It is at its end.
    Finish(Result<Outcome<K, V>, MapError>),
}

/// The mathematical value of a [`Command`].
pub enum CommandView<K, V> {
    Lookup(K),
    Update(K, V, UpdateMode),
    Delete(K),
    Keys,
    UpdateBatch(Seq<(K, V)>),
    DeleteBatch(Seq<K>),
}

/// The mathematical value of a [`Reply`].
pub enum ReplyView<K, V> {
    Value(Option<V>),
    Keys(Seq<K>),
    Done,
    Failed(MapError),
}

/// The mathematical value of an [`Outcome`].
pub enum OutcomeView<K, V> {
    Value(Option<V>),
    Flag(bool),
    Count(nat),
    Entries(Seq<(K, V)>),
    Unit,
}

/// The mathematical value of an [`Operation`].
pub enum OperationView<K, V> {
    Get(K),
    ContainsKey(K),
    Insert(K, V),
    InsertOver(K, V, Option<V>),
    InsertNew(K, V),
    Replace(K, V),
    Remove(K),
    RemoveFound(K, V),
    Len,
    Iter,
    IterRest(K, Seq<K>, Seq<(K, V)>),
    Clear,
    ClearRest(K, Seq<K>),
    InsertBatch(Seq<(K, V)>),
    RemoveBatch(Seq<K>),
}

/// The mathematical value of a [`Progress`].
pub enum ProgressView<K, V> {
    Continue(OperationView<K, V>),
    Finish(Result<OutcomeView<K, V>, MapError>),
}

impl<K, V> View for Command<K, V> {
    type V = CommandView<K, V>;

    open spec fn view(&self) -> CommandView<K, V> {
        match *self {
            Command::Lookup(key) => CommandView::Lookup(key),
            Command::Update(key, value, mode) => CommandView::Update(key, value, mode),
            Command::Delete(key) => CommandView::Delete(key),
            Command::Keys => CommandView::Keys,
            Command::UpdateBatch(entries) => CommandView::UpdateBatch(entries@),
            Command::DeleteBatch(keys) => CommandView::DeleteBatch(keys@),
        }
    }
}

impl<K, V> View for Reply<K, V> {
    type V = ReplyView<K, V>;

    open spec fn view(&self) -> ReplyView<K, V> {
        match *self {
            Reply::Value(value) => ReplyView::Value(value),
            Reply::Keys(keys) => ReplyView::Keys(keys@),
            Reply::Done => ReplyView::Done,
            Reply::Failed(e) => ReplyView::Failed(e),
        }
    }
}

impl<K, V> View for Outcome<K, V> {
    type V = OutcomeView<K, V>;

    open spec fn view(&self) -> OutcomeView<K, V> {
        match *self {
            Outcome::Value(value) => OutcomeView::Value(value),
            Outcome::Flag(flag) => OutcomeView::Flag(flag),
            Outcome::Count(count) => OutcomeView::Count(count as nat),
            Outcome::Entries(entries) => OutcomeView::Entries(entries@),
            Outcome::Unit => OutcomeView::Unit,
        }
    }
}

impl<K, V> View for Operation<K, V> {
    type V = OperationView<K, V>;

    open spec fn view(&self) -> OperationView<K, V> {
        match *self {
            Operation::Get(key) => OperationView::Get(key),
            Operation::ContainsKey(key) => OperationView::ContainsKey(key),
            Operation::Insert(key, value) => OperationView::Insert(key, value),
            Operation::InsertOver(key, value, previous) => OperationView::InsertOver(
                key,
                value,
                previous,
            ),
            Operation::InsertNew(key, value) => OperationView::InsertNew(key, value),
            Operation::Replace(key, value) => OperationView::Replace(key, value),
            Operation::Remove(key) => OperationView::Remove(key),
            Operation::RemoveFound(key, value) => OperationView::RemoveFound(key, value),
            Operation::Len => OperationView::Len,
            Operation::Iter => OperationView::Iter,
            Operation::IterRest(key, rest, entries) => OperationView::IterRest(
                key,
                rest@,
                entries@,
            ),
            Operation::Clear => OperationView::Clear,
            Operation::ClearRest(key, rest) => OperationView::ClearRest(key, rest@),
            Operation::InsertBatch(entries) => OperationView::InsertBatch(entries@),
            Operation::RemoveBatch(keys) => OperationView::RemoveBatch(keys@),
        }
    }
}

impl<K, V> View for Progress<K, V> {
    type V = ProgressView<K, V>;

    open spec fn view(&self) -> ProgressView<K, V> {
        match *self {
            Progress::Continue(operation) => ProgressView::Continue(operation@),
            Progress::Finish(Ok(outcome)) => ProgressView::Finish(Ok(outcome@)),
            Progress::Finish(Err(e)) => ProgressView::Finish(Err(e)),
        }
    }
}

/// The command that an operation needs next.
pub open spec fn command_of<K, V>(operation: OperationView<K, V>) -> CommandView<K, V> {
    match operation {
        OperationView::Get(key) => CommandView::Lookup(key),
        OperationView::ContainsKey(key) => CommandView::Lookup(key),
        OperationView::Insert(key, value) => CommandView::Lookup(key),
        OperationView::InsertOver(key, value, previous) => CommandView::Update(
            key,
            value,
            UpdateMode::Any,
        ),
        OperationView::InsertNew(key, value) => CommandView::Update(
            key,
            value,
            UpdateMode::NoExist,
        ),
        OperationView::Replace(key, value) => CommandView::Update(key, value, UpdateMode::Exist),
        OperationView::Remove(key) => CommandView::Lookup(key),
        OperationView::RemoveFound(key, value) => CommandView::Delete(key),
        OperationView::Len => CommandView::Keys,
        OperationView::Iter => CommandView::Keys,
        OperationView::IterRest(key, rest, entries) => CommandView::Lookup(key),
        OperationView::Clear => CommandView::Keys,
        OperationView::ClearRest(key, rest) => CommandView::Delete(key),
        OperationView::InsertBatch(entries) => CommandView::UpdateBatch(entries),
        OperationView::RemoveBatch(keys) => CommandView::DeleteBatch(keys),
    }
}

/// What a reply says of the value of a key: a key that was not found has none.
pub open spec fn value_in<K, V>(reply: ReplyView<K, V>) -> Result<Option<V>, MapError> {
    match reply {
        ReplyView::Value(value) => Ok(value),
        ReplyView::Failed(MapError::NotFound) => Ok(None),
        ReplyView::Failed(e) => Err(e),
        _ => Err(MapError::UnexpectedReply),
    }
}

/// What a reply says of whether a command was run, where `refusal` is the error that says that
/// it did not apply.
pub open spec fn applied_in<K, V>(reply: ReplyView<K, V>, refusal: Option<MapError>) -> Result<
    bool,
    MapError,
> {
    match reply {
        ReplyView::Done => Ok(true),
        ReplyView::Failed(e) => if refusal == Some(e) {
            Ok(false)
        } else {
            Err(e)
        },
        _ => Err(MapError::UnexpectedReply),
    }
}

/// What a reply says of the keys of the map.
pub open spec fn keys_in<K, V>(reply: ReplyView<K, V>) -> Result<Seq<K>, MapError> {
    match reply {
        ReplyView::Keys(keys) => Ok(keys),
        ReplyView::Failed(e) => Err(e),
        _ => Err(MapError::UnexpectedReply),
    }
}

/// Reading on through `keys`, with `entries` read so far.
pub open spec fn iterating<K, V>(keys: Seq<K>, entries: Seq<(K, V)>) -> ProgressView<K, V> {
    if keys.len() == 0 {
        ProgressView::Finish(Ok(OutcomeView::Entries(entries)))
    } else {
        ProgressView::Continue(
            OperationView::IterRest(keys.first(), keys.subrange(1, keys.len() as int), entries),
        )
    }
}

/// Clearing on through `keys`.
pub open spec fn clearing<K, V>(keys: Seq<K>) -> ProgressView<K, V> {
    if keys.len() == 0 {
        ProgressView::Finish(Ok(OutcomeView::Unit))
    } else {
        ProgressView::Continue(
            OperationView::ClearRest(keys.first(), keys.subrange(1, keys.len() as int)),
        )
    }
}

/// Where an operation stands after the reply to its command. An error that the operation has no
/// use for ends it.
pub open spec fn progress_of<K, V>(
    operation: OperationView<K, V>,
    reply: ReplyView<K, V>,
) -> ProgressView<K, V> {
    let value = value_in(reply);
    let keys = keys_in(reply);
    match operation {
        OperationView::Get(key) => match value {
            Ok(value) => ProgressView::Finish(Ok(OutcomeView::Value(value))),
            Err(e) => ProgressView::Finish(Err(e)),
        },
        OperationView::ContainsKey(key) => match value {
            Ok(value) => ProgressView::Finish(Ok(OutcomeView::Flag(value is Some))),
            Err(e) => ProgressView::Finish(Err(e)),
        },
        OperationView::Insert(key, new) => match value {
            Ok(value) => ProgressView::Continue(OperationView::InsertOver(key, new, value)),
            Err(e) => ProgressView::Finish(Err(e)),
        },
        OperationView::InsertOver(key, new, previous) => match applied_in(reply, None) {
            Ok(_) => ProgressView::Finish(Ok(OutcomeView::Value(previous))),
            Err(e) => ProgressView::Finish(Err(e)),
        },
        OperationView::InsertNew(key, new) => match applied_in(
            reply,
            Some(MapError::AlreadyExists),
        ) {
            Ok(applied) => ProgressView::Finish(Ok(OutcomeView::Flag(applied))),
            Err(e) => ProgressView::Finish(Err(e)),
        },
        OperationView::Replace(key, new) => match applied_in(reply, Some(MapError::NotFound)) {
            Ok(applied) => ProgressView::Finish(Ok(OutcomeView::Flag(applied))),
            Err(e) => ProgressView::Finish(Err(e)),
        },
        OperationView::Remove(key) => match value {
            Ok(Some(value)) => ProgressView::Continue(OperationView::RemoveFound(key, value)),
            Ok(None) => ProgressView::Finish(Ok(OutcomeView::Value(None))),
            Err(e) => ProgressView::Finish(Err(e)),
        },
        OperationView::RemoveFound(key, previous) => match applied_in(
            reply,
            Some(MapError::NotFound),
        ) {
            Ok(true) => ProgressView::Finish(Ok(OutcomeView::Value(Some(previous)))),
            Ok(false) => ProgressView::Finish(Ok(OutcomeView::Value(None))),
            Err(e) => ProgressView::Finish(Err(e)),
        },
        OperationView::Len => match keys {
            Ok(keys) => ProgressView::Finish(Ok(OutcomeView::Count(keys.len()))),
            Err(e) => ProgressView::Finish(Err(e)),
        },
        OperationView::Iter => match keys {
            Ok(keys) => iterating(keys, Seq::empty()),
            Err(e) => ProgressView::Finish(Err(e)),
        },
        OperationView::IterRest(key, rest, entries) => match value {
            Ok(Some(value)) => iterating(rest, entries.push((key, value))),
            Ok(None) => iterating(rest, entries),
            Err(e) => ProgressView::Finish(Err(e)),
        },
        OperationView::Clear => match keys {
            Ok(keys) => clearing(keys),
            Err(e) => ProgressView::Finish(Err(e)),
        },
        OperationView::ClearRest(key, rest) => match applied_in(reply, Some(MapError::NotFound)) {
            Ok(_) => clearing(rest),
            Err(e) => ProgressView::Finish(Err(e)),
        },
        OperationView::InsertBatch(entries) => match applied_in(reply, None) {
            Ok(_) => ProgressView::Finish(Ok(OutcomeView::Unit)),
            Err(e) => ProgressView::Finish(Err(e)),
        },
        OperationView::RemoveBatch(keys) => match applied_in(reply, None) {
            Ok(_) => ProgressView::Finish(Ok(OutcomeView::Unit)),
            Err(e) => ProgressView::Finish(Err(e)),
        },
    }
}

/// What a reply says of the value of a key.
fn reply_value<K, V>(reply: Reply<K, V>) -> (r: Result<Option<V>, MapError>)
    ensures
        r == value_in(reply@),
{
    match reply {
        Reply::Value(value) => Ok(value),
        Reply::Failed(MapError::NotFound) => Ok(None),
        Reply::Failed(e) => Err(e),
        _ => Err(MapError::UnexpectedReply),
    }
}

/// What a reply says of whether a command was run.
fn reply_applied<K, V>(reply: Reply<K, V>, refusal: Option<MapError>) -> (r: Result<bool, MapError>)
    ensures
        r == applied_in(reply@, refusal),
{
    match reply {
        Reply::Done => Ok(true),
        Reply::Failed(e) => match refusal {
            Some(refusal) if refusal == e => Ok(false),
            _ => Err(e),
        },
        _ => Err(MapError::UnexpectedReply),
    }
}

/// What a reply says of the keys of the map.
fn reply_keys<K, V>(reply: Reply<K, V>) -> (r: Result<VecDeque<K>, MapError>)
    ensures
        match r {
            Ok(keys) => keys_in(reply@) == Ok::<Seq<K>, MapError>(keys@),
            Err(e) => keys_in(reply@) == Err::<Seq<K>, MapError>(e),
        },
{
    match reply {
        Reply::Keys(keys) => Ok(keys),
        Reply::Failed(e) => Err(e),
        _ => Err(MapError::UnexpectedReply),
    }
}

/// Reads on through `keys`, with `entries` read so far.
fn iterate<K, V>(keys: VecDeque<K>, entries: Vec<(K, V)>) -> (r: Progress<K, V>)
    ensures
        r@ == iterating(keys@, entries@),
{
    let mut rest = keys;
    match rest.pop_front() {
        None => Progress::Finish(Ok(Outcome::Entries(entries))),
        Some(key) => Progress::Continue(Operation::IterRest(key, rest, entries)),
    }
}

/// Clears on through `keys`.
fn clear_on<K, V>(keys: VecDeque<K>) -> (r: Progress<K, V>)
    ensures
        r@ == clearing::<K, V>(keys@),
{
    let mut rest = keys;
    match rest.pop_front() {
        None => Progress::Finish(Ok(Outcome::Unit)),
        Some(key) => Progress::Continue(Operation::ClearRest(key, rest)),
    }
}

/// The elements of a list of values that can be copied.
fn copied<T: Copy>(list: &Vec<T>) -> (r: Vec<T>)
    ensures
        r@ == list@,
{
    let mut r: Vec<T> = Vec::new();
    let mut i: usize = 0;
    while i < list.len()
        invariant
            i <= list@.len(),
            r@ == list@.take(i as int),
        decreases list@.len() - i,
    {
        r.push(list[i]);
        i += 1;
    }
    r
}

impl<K: Copy, V: Copy> Operation<K, V> {
    /// The command that the operation needs next.
    pub fn command(&self) -> (r: Command<K, V>)
        ensures
            r@ == command_of(self@),
    {
        match self {
            Operation::Get(key) => Command::Lookup(*key),
            Operation::ContainsKey(key) => Command::Lookup(*key),
            Operation::Insert(key, _) => Command::Lookup(*key),
            Operation::InsertOver(key, value, _) => Command::Update(*key, *value, UpdateMode::Any),
            Operation::InsertNew(key, value) => Command::Update(*key, *value, UpdateMode::NoExist),
            Operation::Replace(key, value) => Command::Update(*key, *value, UpdateMode::Exist),
            Operation::Remove(key) => Command::Lookup(*key),
            Operation::RemoveFound(key, _) => Command::Delete(*key),
            Operation::Len => Command::Keys,
            Operation::Iter => Command::Keys,
            Operation::IterRest(key, _, _) => Command::Lookup(*key),
            Operation::Clear => Command::Keys,
            Operation::ClearRest(key, _) => Command::Delete(*key),
            Operation::InsertBatch(entries) => Command::UpdateBatch(copied(entries)),
            Operation::RemoveBatch(keys) => Command::DeleteBatch(copied(keys)),
        }
    }

    /// Where the operation stands after the reply to its command.
    pub fn resume(self, reply: Reply<K, V>) -> (r: Progress<K, V>)
        ensures
            r@ == progress_of(self@, reply@),
    {
        match self {
            Operation::Get(_) => match reply_value(reply) {
                Ok(value) => Progress::Finish(Ok(Outcome::Value(value))),
                Err(e) => Progress::Finish(Err(e)),
            },
            Operation::ContainsKey(_) => match reply_value(reply) {
                Ok(value) => Progress::Finish(Ok(Outcome::Flag(value.is_some()))),
                Err(e) => Progress::Finish(Err(e)),
            },
            Operation::Insert(key, new) => match reply_value(reply) {
                Ok(previous) => Progress::Continue(Operation::InsertOver(key, new, previous)),
                Err(e) => Progress::Finish(Err(e)),
            },
            Operation::InsertOver(_, _, previous) => match reply_applied(reply, None) {
                Ok(_) => Progress::Finish(Ok(Outcome::Value(previous))),
                Err(e) => Progress::Finish(Err(e)),
            },
            Operation::InsertNew(_, _) => match reply_applied(
                reply,
                Some(MapError::AlreadyExists),
            ) {
                Ok(applied) => Progress::Finish(Ok(Outcome::Flag(applied))),
                Err(e) => Progress::Finish(Err(e)),
            },
            Operation::Replace(_, _) => match reply_applied(reply, Some(MapError::NotFound)) {
                Ok(applied) => Progress::Finish(Ok(Outcome::Flag(applied))),
                Err(e) => Progress::Finish(Err(e)),
            },
            Operation::Remove(key) => match reply_value(reply) {
                Ok(Some(value)) => Progress::Continue(Operation::RemoveFound(key, value)),
                Ok(None) => Progress::Finish(Ok(Outcome::Value(None))),
                Err(e) => Progress::Finish(Err(e)),
            },
            Operation::RemoveFound(_, previous) => match reply_applied(
                reply,
                Some(MapError::NotFound),
            ) {
                Ok(true) => Progress::Finish(Ok(Outcome::Value(Some(previous)))),
                Ok(false) => Progress::Finish(Ok(Outcome::Value(None))),
                Err(e) => Progress::Finish(Err(e)),
            },
            Operation::Len => match reply_keys(reply) {
                Ok(keys) => Progress::Finish(Ok(Outcome::Count(keys.len()))),
                Err(e) => Progress::Finish(Err(e)),
            },
            Operation::Iter => match reply_keys(reply) {
                Ok(keys) => iterate(keys, Vec::new()),
                Err(e) => Progress::Finish(Err(e)),
            },
            Operation::IterRest(key, rest, entries) => match reply_value(reply) {
                Ok(Some(value)) => {
                    let mut entries = entries;
                    entries.push((key, value));
                    iterate(rest, entries)
                },
                Ok(None) => iterate(rest, entries),
                Err(e) => Progress::Finish(Err(e)),
            },
            Operation::Clear => match reply_keys(reply) {
                Ok(keys) => clear_on(keys),
                Err(e) => Progress::Finish(Err(e)),
            },
            Operation::ClearRest(_, rest) => match reply_applied(reply, Some(MapError::NotFound)) {
                Ok(_) => clear_on(rest),
                Err(e) => Progress::Finish(Err(e)),
            },
            Operation::InsertBatch(_) => match reply_applied(reply, None) {
                Ok(_) => Progress::Finish(Ok(Outcome::Unit)),
                Err(e) => Progress::Finish(Err(e)),
            },
            Operation::RemoveBatch(_) => match reply_applied(reply, None) {
                Ok(_) => Progress::Finish(Ok(Outcome::Unit)),
                Err(e) => Progress::Finish(Err(e)),
            },
        }
    }
}

/// The value of a key in a map.
pub open spec fn lookup<K, V>(map: Map<K, V>, key: K) -> Option<V> {
    if map.dom().contains(key) {
        Some(map[key])
    } else {
        None
    }
}

/// A map with the values of many keys set, one after the other.
pub open spec fn with_all<K, V>(map: Map<K, V>, entries: Seq<(K, V)>) -> Map<K, V>
    decreases entries.len(),
{
    if entries.len() == 0 {
        map
    } else {
        with_all(map, entries.drop_last()).insert(entries.last().0, entries.last().1)
    }
}

/// A map with many keys removed, one after the other, up to the first that it does not hold.
pub open spec fn without_all<K, V>(map: Map<K, V>, keys: Seq<K>) -> (Map<K, V>, ReplyView<K, V>)
    decreases keys.len(),
{
    if keys.len() == 0 {
        (map, ReplyView::Done)
    } else if map.dom().contains(keys.first()) {
        without_all(map.remove(keys.first()), keys.drop_first())
    } else {
        (map, ReplyView::Failed(MapError::NotFound))
    }
}

/// What a command makes of a map that nobody else uses and that has room, and the reply to it.
/// `order` is the order in which the keys are listed.
pub open spec fn served<K, V>(map: Map<K, V>, command: CommandView<K, V>, order: Seq<K>) -> (
    Map<K, V>,
    ReplyView<K, V>,
) {
    match command {
        CommandView::Lookup(key) => (map, ReplyView::Value(lookup(map, key))),
        CommandView::Update(key, value, mode) => if mode == UpdateMode::NoExist
            && map.dom().contains(key) {
            (map, ReplyView::Failed(MapError::AlreadyExists))
        } else if mode == UpdateMode::Exist && !map.dom().contains(key) {
            (map, ReplyView::Failed(MapError::NotFound))
        } else {
            (map.insert(key, value), ReplyView::Done)
        },
        CommandView::Delete(key) => if map.dom().contains(key) {
            (map.remove(key), ReplyView::Done)
        } else {
            (map, ReplyView::Failed(MapError::NotFound))
        },
        CommandView::Keys => (map, ReplyView::Keys(order)),
        CommandView::UpdateBatch(entries) => (with_all(map, entries), ReplyView::Done),
        CommandView::DeleteBatch(keys) => without_all(map, keys),
    }
}

/// How many commands an operation needs at most.
pub open spec fn commands_left<K, V>(operation: OperationView<K, V>, order: Seq<K>) -> nat {
    match operation {
        OperationView::Insert(_, _) => 2,
        OperationView::Remove(_) => 2,
        OperationView::Iter => order.len() + 1,
        OperationView::IterRest(_, rest, _) => rest.len() + 1,
        OperationView::Clear => order.len() + 1,
        OperationView::ClearRest(_, rest) => rest.len() + 1,
        _ => 1,
    }
}

/// What an operation makes of such a map, and what it ends with.
pub open spec fn carried_out<K, V>(
    operation: OperationView<K, V>,
    map: Map<K, V>,
    order: Seq<K>,
) -> (Map<K, V>, Result<OutcomeView<K, V>, MapError>)
    decreases commands_left(operation, order),
{
    let (after, reply) = served(map, command_of(operation), order);
    match progress_of(operation, reply) {
        ProgressView::Finish(result) => (after, result),
        ProgressView::Continue(next) => carried_out(next, after, order),
    }
}

/// Whether a list holds each key of a map once.
pub open spec fn lists_keys<K, V>(order: Seq<K>, map: Map<K, V>) -> bool {
    &&& order.no_duplicates()
    &&& order.to_set() == map.dom()
}

/// What the operations on one key do: a lookup gives the value of the key and changes nothing,
/// `Insert` sets it and gives the one before, `InsertNew` and `Replace` set it only where the
/// key is missing or present and tell whether it was, and `Remove` takes it away and gives it.
pub proof fn law_operations_on_one_key<K, V>(map: Map<K, V>, key: K, value: V, order: Seq<K>)
    ensures
        carried_out(OperationView::Get(key), map, order) == (
            map,
            Ok::<_, MapError>(OutcomeView::<K, V>::Value(lookup(map, key))),
        ),
        carried_out(OperationView::ContainsKey(key), map, order) == (
            map,
            Ok::<_, MapError>(OutcomeView::<K, V>::Flag(map.dom().contains(key))),
        ),
        carried_out(OperationView::Insert(key, value), map, order) == (
            map.insert(key, value),
            Ok::<_, MapError>(OutcomeView::<K, V>::Value(lookup(map, key))),
        ),
        carried_out(OperationView::InsertNew(key, value), map, order) == if map.dom().contains(
            key,
        ) {
            (map, Ok::<_, MapError>(OutcomeView::<K, V>::Flag(false)))
        } else {
            (map.insert(key, value), Ok(OutcomeView::Flag(true)))
        },
        carried_out(OperationView::Replace(key, value), map, order) == if map.dom().contains(key) {
            (map.insert(key, value), Ok::<_, MapError>(OutcomeView::<K, V>::Flag(true)))
        } else {
            (map, Ok(OutcomeView::Flag(false)))
        },
        carried_out(OperationView::Remove(key), map, order) == (
            map.remove(key),
            Ok::<_, MapError>(OutcomeView::<K, V>::Value(lookup(map, key))),
        ),
{
    reveal_with_fuel(carried_out, 3);
    if !map.dom().contains(key) {
        assert(map.remove(key) =~= map);
    }
}

/// Reading gives back what was written: after `Insert` a lookup gives the value, after `Remove`
/// it gives none, and neither changes what a lookup gives of another key.
pub proof fn law_get_gives_back_what_was_written<K, V>(
    map: Map<K, V>,
    key: K,
    value: V,
    other: K,
    order: Seq<K>,
)
    requires
        other != key,
    ensures
        ({
            let written = carried_out(OperationView::Insert(key, value), map, order).0;
            &&& carried_out(OperationView::Get(key), written, order).1 == Ok::<_, MapError>(
                OutcomeView::<K, V>::Value(Some(value)),
            )
            &&& carried_out(OperationView::Get(other), written, order).1 == carried_out(
                OperationView::Get(other),
                map,
                order,
            ).1
        }),
        ({
            let removed = carried_out(OperationView::<K, V>::Remove(key), map, order).0;
            &&& carried_out(OperationView::Get(key), removed, order).1 == Ok::<_, MapError>(
                OutcomeView::<K, V>::Value(None),
            )
            &&& carried_out(OperationView::Get(other), removed, order).1 == carried_out(
                OperationView::Get(other),
                map,
                order,
            ).1
        }),
{
    law_operations_on_one_key(map, key, value, order);
    law_operations_on_one_key(map.insert(key, value), key, value, order);
    law_operations_on_one_key(map.remove(key), key, value, order);
    law_operations_on_one_key(map, other, value, order);
    law_operations_on_one_key(map.insert(key, value), other, value, order);
    law_operations_on_one_key(map.remove(key), other, value, order);
}

/// `Len` tells how many keys the map holds.
pub proof fn law_len_counts_the_keys<K, V>(map: Map<K, V>, order: Seq<K>)
    requires
        lists_keys(order, map),
    ensures
        carried_out(OperationView::Len, map, order) == (
            map,
            Ok::<_, MapError>(OutcomeView::<K, V>::Count(map.dom().len())),
        ),
{
    order.unique_seq_to_set();
}

proof fn lemma_iterating<K, V>(
    map: Map<K, V>,
    key: K,
    rest: Seq<K>,
    entries: Seq<(K, V)>,
    order: Seq<K>,
)
    requires
        map.dom().contains(key),
        forall|i: int| 0 <= i < rest.len() ==> map.dom().contains(#[trigger] rest[i]),
    ensures
        carried_out(OperationView::IterRest(key, rest, entries), map, order) == (
            map,
            Ok::<_, MapError>(
                OutcomeView::<K, V>::Entries(
                    entries.push((key, map[key])) + rest.map_values(|k: K| (k, map[k])),
                ),
            ),
        ),
    decreases rest.len(),
{
    let read = entries.push((key, map[key]));
    if rest.len() > 0 {
        let tail = rest.subrange(1, rest.len() as int);
        assert(rest[0] == rest.first());
        assert forall|i: int| 0 <= i < tail.len() implies map.dom().contains(#[trigger] tail[i]) by {
            assert(tail[i] == rest[i + 1]);
        }
        lemma_iterating(map, rest.first(), tail, read, order);
        assert(read.push((rest.first(), map[rest.first()])) + tail.map_values(|k: K| (k, map[k]))
            == read + rest.map_values(|k: K| (k, map[k])));
    } else {
        assert(read + rest.map_values(|k: K| (k, map[k])) == read);
    }
}

/// `Iter` gives each key of the map once, with its value, in the order in which the keys are
/// listed.
pub proof fn law_iter_gives_each_entry_once<K, V>(map: Map<K, V>, order: Seq<K>)
    requires
        lists_keys(order, map),
    ensures
        carried_out(OperationView::Iter, map, order) == (
            map,
            Ok::<_, MapError>(
                OutcomeView::<K, V>::Entries(order.map_values(|k: K| (k, map[k]))),
            ),
        ),
{
    assert forall|i: int| 0 <= i < order.len() implies map.dom().contains(#[trigger] order[i]) by {
        assert(order.to_set().contains(order[i]));
    }
    if order.len() > 0 {
        let tail = order.subrange(1, order.len() as int);
        assert forall|i: int| 0 <= i < tail.len() implies map.dom().contains(#[trigger] tail[i]) by {
            assert(tail[i] == order[i + 1]);
        }
        assert(order[0] == order.first());
        lemma_iterating(map, order.first(), tail, Seq::empty(), order);
        assert(Seq::<(K, V)>::empty().push((order.first(), map[order.first()])) + tail.map_values(
            |k: K| (k, map[k]),
        ) == order.map_values(|k: K| (k, map[k])));
    } else {
        assert(order.map_values(|k: K| (k, map[k])) == Seq::<(K, V)>::empty());
    }
}

proof fn lemma_clearing<K, V>(map: Map<K, V>, key: K, rest: Seq<K>, order: Seq<K>)
    requires
        forall|k: K| #[trigger] map.dom().contains(k) ==> k == key || rest.contains(k),
    ensures
        carried_out(OperationView::ClearRest(key, rest), map, order) == (
            Map::<K, V>::empty(),
            Ok::<_, MapError>(OutcomeView::<K, V>::Unit),
        ),
    decreases rest.len(),
{
    let left = served(map, CommandView::Delete(key), order).0;
    assert(left =~= map.remove(key));
    if rest.len() > 0 {
        let tail = rest.subrange(1, rest.len() as int);
        assert forall|k: K| #[trigger] left.dom().contains(k) implies k == rest.first() || tail.contains(k) by {
            assert(map.dom().contains(k) && k != key);
            let i = choose|i: int| 0 <= i < rest.len() && rest[i] == k;
            if i > 0 {
                assert(tail[i - 1] == k);
            }
        }
        lemma_clearing(left, rest.first(), tail, order);
    } else {
        assert(left =~= Map::<K, V>::empty());
    }
}

/// `Clear` leaves no key behind.
pub proof fn law_clear_leaves_nothing<K, V>(map: Map<K, V>, order: Seq<K>)
    requires
        lists_keys(order, map),
    ensures
        carried_out(OperationView::Clear, map, order) == (
            Map::<K, V>::empty(),
            Ok::<_, MapError>(OutcomeView::<K, V>::Unit),
        ),
{
    assert forall|k: K| #[trigger] map.dom().contains(k) implies order.contains(k) by {
        assert(order.to_set().contains(k));
    }
    if order.len() > 0 {
        let tail = order.subrange(1, order.len() as int);
        assert forall|k: K| #[trigger] map.dom().contains(k) implies k == order.first() || tail.contains(
            k,
        ) by {
            let i = choose|i: int| 0 <= i < order.len() && order[i] == k;
            if i > 0 {
                assert(tail[i - 1] == k);
            }
        }
        lemma_clearing(map, order.first(), tail, order);
    } else {
        assert(map =~= Map::<K, V>::empty());
    }
}

/// Whether no entry behind the one at `i` is for the same key.
pub open spec fn is_last_for_key<K, V>(entries: Seq<(K, V)>, i: int) -> bool {
    &&& 0 <= i < entries.len()
    &&& forall|j: int| i < j < entries.len() ==> (#[trigger] entries[j]).0 != entries[i].0
}

proof fn lemma_with_all<K, V>(map: Map<K, V>, entries: Seq<(K, V)>)
    ensures
        forall|i: int| #[trigger]
            is_last_for_key(entries, i) ==> lookup(with_all(map, entries), entries[i].0) == Some(
                entries[i].1,
            ),
        forall|k: K|
            (forall|i: int| 0 <= i < entries.len() ==> (#[trigger] entries[i]).0 != k)
                ==> #[trigger] lookup(with_all(map, entries), k) == lookup(map, k),
    decreases entries.len(),
{
    if entries.len() > 0 {
        let front = entries.drop_last();
        lemma_with_all(map, front);
        let n = entries.len() - 1;
        assert forall|i: int| #[trigger] is_last_for_key(entries, i) implies lookup(
            with_all(map, entries),
            entries[i].0,
        ) == Some(entries[i].1) by {
            if i < n {
                assert(entries[n].0 != entries[i].0);
                assert forall|j: int| i < j < front.len() implies (#[trigger] front[j]).0
                    != front[i].0 by {
                    assert(front[j] == entries[j]);
                }
                assert(is_last_for_key(front, i));
            }
        }
        assert forall|k: K|
            (forall|i: int| 0 <= i < entries.len() ==> (#[trigger] entries[i]).0
                != k) implies #[trigger] lookup(with_all(map, entries), k) == lookup(map, k) by {
            assert(entries[n].0 != k);
            assert forall|i: int| 0 <= i < front.len() implies (#[trigger] front[i]).0 != k by {
                assert(front[i] == entries[i]);
            }
            assert(lookup(with_all(map, front), k) == lookup(map, k));
        }
    }
}

/// `InsertBatch` sets the value of each of its keys, and of no other. Where a key occurs more
/// than once, the last of its values stays.
pub proof fn law_insert_batch_sets_its_entries<K, V>(
    map: Map<K, V>,
    entries: Seq<(K, V)>,
    order: Seq<K>,
)
    ensures
        ({
            let (after, result) = carried_out(OperationView::InsertBatch(entries), map, order);
            &&& result == Ok::<_, MapError>(OutcomeView::<K, V>::Unit)
            &&& forall|i: int| #[trigger]
                is_last_for_key(entries, i) ==> lookup(after, entries[i].0) == Some(entries[i].1)
            &&& forall|k: K|
                (forall|i: int| 0 <= i < entries.len() ==> (#[trigger] entries[i]).0 != k)
                    ==> #[trigger] lookup(after, k) == lookup(map, k)
        }),
{
    lemma_with_all(map, entries);
}

proof fn lemma_without_all<K, V>(map: Map<K, V>, keys: Seq<K>)
    requires
        keys.no_duplicates(),
        forall|i: int| 0 <= i < keys.len() ==> map.dom().contains(#[trigger] keys[i]),
    ensures
        without_all(map, keys).0 == map.remove_keys(keys.to_set()),
        without_all(map, keys).1 == ReplyView::<K, V>::Done,
    decreases keys.len(),
{
    if keys.len() > 0 {
        let rest = keys.drop_first();
        let left = map.remove(keys.first());
        assert(keys[0] == keys.first());
        assert forall|i: int| 0 <= i < rest.len() implies left.dom().contains(#[trigger] rest[i]) by {
            assert(rest[i] == keys[i + 1]);
            assert(keys[i + 1] != keys[0]);
        }
        lemma_without_all(left, rest);
        assert forall|k: K| keys.to_set().contains(k) <==> k == keys.first() || #[trigger]
            rest.to_set().contains(k) by {
            if keys.contains(k) && k != keys.first() {
                let i = choose|i: int| 0 <= i < keys.len() && keys[i] == k;
                assert(rest[i - 1] == k);
            }
            if rest.contains(k) {
                let i = choose|i: int| 0 <= i < rest.len() && rest[i] == k;
                assert(keys[i + 1] == k);
            }
        }
        assert(left.remove_keys(rest.to_set()) =~= map.remove_keys(keys.to_set()));
    } else {
        assert(map.remove_keys(keys.to_set()) =~= map);
    }
}

/// `RemoveBatch` takes away its keys, and no other.
pub proof fn law_remove_batch_takes_its_keys<K, V>(map: Map<K, V>, keys: Seq<K>, order: Seq<K>)
    requires
        keys.no_duplicates(),
        forall|i: int| 0 <= i < keys.len() ==> map.dom().contains(#[trigger] keys[i]),
    ensures
        carried_out(OperationView::RemoveBatch(keys), map, order) == (
            map.remove_keys(keys.to_set()),
            Ok::<_, MapError>(OutcomeView::<K, V>::Unit),
        ),
{
    lemma_without_all(map, keys);
}

/// Whether an operation has a use for an error: most take a missing key as an answer, and
/// `InsertNew` takes a present one as an answer.
pub open spec fn has_use_for<K, V>(operation: OperationView<K, V>, e: MapError) -> bool {
    match e {
        MapError::NotFound => {
            ||| operation is Get
            ||| operation is ContainsKey
            ||| operation is Insert
            ||| operation is Replace
            ||| operation is Remove
            ||| operation is RemoveFound
            ||| operation is IterRest
            ||| operation is ClearRest
        },
        MapError::AlreadyExists => operation is InsertNew,
        _ => false,
    }
}

/// No error is swallowed: one that the operation has no use for ends it and is what it ends with.
pub proof fn law_no_error_is_swallowed<K, V>(operation: OperationView<K, V>, e: MapError)
    requires
        !has_use_for(operation, e),
    ensures
        progress_of(operation, ReplyView::Failed(e)) == ProgressView::<K, V>::Finish(Err(e)),
{
}

/// A missing key is an answer: a lookup that fails for want of the key is worth one that finds no
/// value, and there is nothing to replace and nothing to remove.
pub proof fn law_missing_key_is_an_answer<K, V>(
    key: K,
    value: V,
    rest: Seq<K>,
    entries: Seq<(K, V)>,
)
    ensures
        ({
            let missing = ReplyView::<K, V>::Failed(MapError::NotFound);
            let none = ProgressView::<K, V>::Finish(Ok(OutcomeView::Value(None)));
            let no = ProgressView::<K, V>::Finish(Ok(OutcomeView::Flag(false)));
            &&& progress_of(OperationView::Get(key), missing) == none
            &&& progress_of(OperationView::ContainsKey(key), missing) == no
            &&& progress_of(OperationView::Insert(key, value), missing) == ProgressView::Continue(
                OperationView::InsertOver(key, value, None),
            )
            &&& progress_of(OperationView::Replace(key, value), missing) == no
            &&& progress_of(OperationView::Remove(key), missing) == none
            &&& progress_of(OperationView::RemoveFound(key, value), missing) == none
            &&& progress_of(OperationView::IterRest(key, rest, entries), missing) == progress_of(
                OperationView::IterRest(key, rest, entries),
                ReplyView::Value(None),
            )
            &&& progress_of(OperationView::<K, V>::ClearRest(key, rest), missing) == progress_of(
                OperationView::<K, V>::ClearRest(key, rest),
                ReplyView::Done,
            )
        }),
{
}

/// Reading through the keys leaves none out and takes none twice: each goes to the end of what
/// was read, with its value, or is left out where it has none, and the next is the one listed next.
pub proof fn law_iter_goes_from_key_to_key<K, V>(
    key: K,
    rest: Seq<K>,
    entries: Seq<(K, V)>,
    found: Option<V>,
)
    ensures
        ({
            let read = match found {
                Some(value) => entries.push((key, value)),
                None => entries,
            };
            match progress_of(OperationView::IterRest(key, rest, entries), ReplyView::Value(found)) {
                ProgressView::Continue(OperationView::IterRest(next, left, so_far)) => {
                    &&& seq![next] + left == rest
                    &&& so_far == read
                },
                ProgressView::Finish(Ok(OutcomeView::Entries(all))) => {
                    &&& rest.len() == 0
                    &&& all == read
                },
                _ => false,
            }
        }),
{
    if rest.len() > 0 {
        assert(seq![rest.first()] + rest.subrange(1, rest.len() as int) == rest);
    }
}

/// Clearing goes through all keys that are listed: it removes one after the other, in their
/// order, and ends behind the last.
pub proof fn law_clear_goes_from_key_to_key<K, V>(key: K, rest: Seq<K>)
    ensures
        command_of(OperationView::<K, V>::ClearRest(key, rest)) == CommandView::<K, V>::Delete(key),
        match progress_of(OperationView::<K, V>::ClearRest(key, rest), ReplyView::Done) {
            ProgressView::Continue(OperationView::ClearRest(next, left)) => seq![next] + left
                == rest,
            ProgressView::Finish(Ok(OutcomeView::Unit)) => rest.len() == 0,
            _ => false,
        },
        match progress_of(OperationView::<K, V>::Clear, ReplyView::Keys(rest)) {
            ProgressView::Continue(OperationView::ClearRest(next, left)) => seq![next] + left
                == rest,
            ProgressView::Finish(Ok(OutcomeView::Unit)) => rest.len() == 0,
            _ => false,
        },
        match progress_of(OperationView::<K, V>::Iter, ReplyView::Keys(rest)) {
            ProgressView::Continue(OperationView::IterRest(next, left, so_far)) => {
                &&& seq![next] + left == rest
                &&& so_far.len() == 0
            },
            ProgressView::Finish(Ok(OutcomeView::Entries(all))) => rest.len() == 0 && all.len()
                == 0,
            _ => false,
        },
        progress_of(OperationView::<K, V>::Len, ReplyView::Keys(rest)) == ProgressView::<
            K,
            V,
        >::Finish(Ok(OutcomeView::Count(rest.len()))),
{
    if rest.len() > 0 {
        assert(seq![rest.first()] + rest.subrange(1, rest.len() as int) == rest);
    }
}

/// A value that was there before is handed back as it was read, and only once the command that
/// changes it has been run.
pub proof fn law_value_before_is_handed_back<K, V>(key: K, value: V, before: Option<V>)
    ensures
        progress_of(OperationView::Get(key), ReplyView::Value(before)) == ProgressView::<
            K,
            V,
        >::Finish(Ok(OutcomeView::Value(before))),
        progress_of(OperationView::ContainsKey(key), ReplyView::Value(before)) == ProgressView::<
            K,
            V,
        >::Finish(Ok(OutcomeView::Flag(before is Some))),
        progress_of(OperationView::Insert(key, value), ReplyView::Value(before))
            == ProgressView::Continue(OperationView::InsertOver(key, value, before)),
        progress_of(OperationView::InsertOver(key, value, before), ReplyView::Done)
            == ProgressView::<K, V>::Finish(Ok(OutcomeView::Value(before))),
        progress_of(OperationView::Remove(key), ReplyView::Value(Some(value)))
            == ProgressView::Continue(OperationView::RemoveFound(key, value)),
        progress_of(OperationView::RemoveFound(key, value), ReplyView::Done) == ProgressView::<
            K,
            V,
        >::Finish(Ok(OutcomeView::Value(Some(value)))),
{
}

} // verus!
