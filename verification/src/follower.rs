//! How a log file is followed while it grows.
use vstd::prelude::*;

use crate::event::LogEvent;
use crate::json::option_view;
use crate::text::{contains, ends_with, has_suffix, lowered, occurs_in, same, to_lower};

verus! {

/// How many bytes are read of a file at once.
pub const MAX_READ_PER_POLL: u64 = 4_194_304;

/// How many events are handed on at once.
pub const MAX_BATCH_EVENTS: usize = 2_048;

/// What the reader is told. The places of files are of any type.
#[derive(Debug)]
pub enum ReaderCommand<P> {
    AddPaths(Vec<P>),
    Shutdown,
}

/// What the reader tells of a file.
#[derive(Debug)]
pub enum ReaderMessage<P> {
    Batch(Vec<LogEvent>),
    InitialLoadStarted { path: P, file_size_bytes: u64 },
    InitialLoadCompleted {
        path: P,
        file_size_bytes: u64,
        event_count: u64,
        invalid_count: u64,
        duration_nanos: u64,
    },
    InvalidRecord { path: P, line: u64, error: String },
    SourceOpened(P),
    SourceRecovered(P),
    SourceReplaced(P),
    SourceError { path: P, error: String },
}

/// What the reader tells of a file, without its texts.
pub enum MessageModel {
    Batch(Seq<LogEvent>),
    InitialLoadStarted { file_size_bytes: u64 },
    InitialLoadCompleted {
        file_size_bytes: u64,
        event_count: u64,
        invalid_count: u64,
        duration_nanos: u64,
    },
    InvalidRecord { line: u64, error: Seq<char> },
    SourceOpened,
    SourceRecovered,
    SourceReplaced,
    SourceError { error: Seq<char> },
}

impl<P> View for ReaderMessage<P> {
    type V = MessageModel;

    open spec fn view(&self) -> MessageModel {
        match *self {
            ReaderMessage::Batch(events) => MessageModel::Batch(events@),
            ReaderMessage::InitialLoadStarted {
                path,
                file_size_bytes,
            } => MessageModel::InitialLoadStarted { file_size_bytes },
            ReaderMessage::InitialLoadCompleted {
                path,
                file_size_bytes,
                event_count,
                invalid_count,
                duration_nanos,
            } => MessageModel::InitialLoadCompleted {
                file_size_bytes,
                event_count,
                invalid_count,
                duration_nanos,
            },
            ReaderMessage::InvalidRecord {
                path,
                line,
                error,
            } => MessageModel::InvalidRecord { line, error: error@ },
            ReaderMessage::SourceOpened(path) => MessageModel::SourceOpened,
            ReaderMessage::SourceRecovered(path) => MessageModel::SourceRecovered,
            ReaderMessage::SourceReplaced(path) => MessageModel::SourceReplaced,
            ReaderMessage::SourceError {
                path,
                error,
            } => MessageModel::SourceError { error: error@ },
        }
    }
}

/// The place of the file that a message tells of; a batch tells of none.
pub open spec fn place_of<P>(message: ReaderMessage<P>) -> Option<P> {
    match message {
        ReaderMessage::Batch(_) => None,
        ReaderMessage::InitialLoadStarted { path, file_size_bytes } => Some(path),
        ReaderMessage::InitialLoadCompleted {
            path,
            file_size_bytes,
            event_count,
            invalid_count,
            duration_nanos,
        } => Some(path),
        ReaderMessage::InvalidRecord { path, line, error } => Some(path),
        ReaderMessage::SourceOpened(path) => Some(path),
        ReaderMessage::SourceRecovered(path) => Some(path),
        ReaderMessage::SourceReplaced(path) => Some(path),
        ReaderMessage::SourceError { path, error } => Some(path),
    }
}

impl<P> ReaderMessage<P> {
    /// The same message with another form of the place.
    pub fn with_path<Q>(self, place: Q) -> (message: ReaderMessage<Q>)
        ensures
            message@ == self@,
            place_of(message) == if place_of(self) is Some {
                Some(place)
            } else {
                None
            },
    {
        match self {
            ReaderMessage::Batch(events) => ReaderMessage::Batch(events),
            ReaderMessage::InitialLoadStarted {
                path,
                file_size_bytes,
            } => ReaderMessage::InitialLoadStarted { path: place, file_size_bytes },
            ReaderMessage::InitialLoadCompleted {
                path,
                file_size_bytes,
                event_count,
                invalid_count,
                duration_nanos,
            } => ReaderMessage::InitialLoadCompleted {
                path: place,
                file_size_bytes,
                event_count,
                invalid_count,
                duration_nanos,
            },
            ReaderMessage::InvalidRecord {
                path,
                line,
                error,
            } => ReaderMessage::InvalidRecord { path: place, line, error },
            ReaderMessage::SourceOpened(_) => ReaderMessage::SourceOpened(place),
            ReaderMessage::SourceRecovered(_) => ReaderMessage::SourceRecovered(place),
            ReaderMessage::SourceReplaced(_) => ReaderMessage::SourceReplaced(place),
            ReaderMessage::SourceError { path, error } => ReaderMessage::SourceError {
                path: place,
                error,
            },
        }
    }
}

/// Whether the name of a file is that of a log or of an archived log.
pub fn is_jsonl_name(name: &str) -> (result: bool)
    ensures
        result == (has_suffix(lowered(name@), ".jsonl"@) || occurs_in(
            lowered(name@),
            ".jsonl."@,
        )),
{
    let name = to_lower(name);
    ends_with(name.as_str(), ".jsonl") || contains(name.as_str(), ".jsonl.")
}

/// The byte that ends a line.
pub const LINE_END: u8 = 10;

/// The byte that may stand before the end of a line.
pub const CARRIAGE_RETURN: u8 = 13;

/// The bytes behind the last line.
pub open spec fn tail_of(bytes: Seq<u8>) -> Seq<u8>
    decreases bytes.len(),
{
    if bytes.len() == 0 || bytes.last() == LINE_END {
        Seq::empty()
    } else {
        tail_of(bytes.drop_last()).push(bytes.last())
    }
}

/// The lines of bytes that are complete and not empty.
pub open spec fn lines_of(bytes: Seq<u8>) -> Seq<Seq<u8>>
    decreases bytes.len(),
{
    if bytes.len() == 0 {
        Seq::empty()
    } else {
        let before = bytes.drop_last();
        if bytes.last() == LINE_END && tail_of(before).len() > 0 {
            lines_of(before).push(tail_of(before))
        } else {
            lines_of(before)
        }
    }
}

/// A line without the carriage return at its end.
pub open spec fn record_of(line: Seq<u8>) -> Seq<u8> {
    if line.len() > 0 && line.last() == CARRIAGE_RETURN {
        line.drop_last()
    } else {
        line
    }
}

/// The views of lists of bytes.
pub open spec fn byte_views(lines: Seq<Vec<u8>>) -> Seq<Seq<u8>> {
    lines.map_values(|line: Vec<u8>| line@)
}

/// The lines without carriage returns.
pub open spec fn records_of(bytes: Seq<u8>) -> Seq<Seq<u8>> {
    lines_of(bytes).map_values(|line: Seq<u8>| record_of(line))
}

/// The bytes behind the last line hold no end of a line.
pub proof fn lemma_tail_has_no_end(bytes: Seq<u8>)
    ensures
        forall|i: int| 0 <= i < tail_of(bytes).len() ==> #[trigger] tail_of(bytes)[i] != LINE_END,
        tail_of(tail_of(bytes)) == tail_of(bytes),
        lines_of(tail_of(bytes)) == Seq::<Seq<u8>>::empty(),
    decreases bytes.len(),
{
    if bytes.len() > 0 && bytes.last() != LINE_END {
        let before = tail_of(bytes.drop_last());
        lemma_tail_has_no_end(bytes.drop_last());
        assert(tail_of(bytes) == before.push(bytes.last()));
        assert(tail_of(bytes).drop_last() == before);
    }
}

/// Bytes that come in two parts have the lines that they have at once, whatever
/// the parts: those of the first part, and those of what it left with the second.
pub proof fn lemma_lines_in_parts(first: Seq<u8>, second: Seq<u8>)
    ensures
        lines_of(first + second) == lines_of(first) + lines_of(tail_of(first) + second),
        tail_of(first + second) == tail_of(tail_of(first) + second),
    decreases second.len(),
{
    if second.len() == 0 {
        assert(first + second == first);
        assert(tail_of(first) + second == tail_of(first));
        lemma_tail_has_no_end(first);
        assert(lines_of(first) + Seq::<Seq<u8>>::empty() == lines_of(first));
    } else {
        let before = second.drop_last();
        lemma_lines_in_parts(first, before);
        assert((first + second).drop_last() == first + before);
        assert((tail_of(first) + second).drop_last() == tail_of(first) + before);
        assert((first + second).last() == second.last());
        assert((tail_of(first) + second).last() == second.last());
        let line = tail_of(first + before);
        if second.last() == LINE_END && line.len() > 0 {
            assert(lines_of(first) + lines_of(tail_of(first) + before).push(line) == (lines_of(
                first,
            ) + lines_of(tail_of(first) + before)).push(line));
        }
    }
}

/// What is known of the first reading of a file.
#[derive(Clone, Copy, PartialEq, Eq, Structural, Debug)]
pub struct InitialLoad {
    pub started_nanos: u64,
    pub file_size_bytes: u64,
    pub event_count: u64,
    pub invalid_count: u64,
}

/// How far a file has been read.
#[derive(Debug)]
pub struct FileCursor {
    pub offset: u64,
    pub line: u64,
    pub partial: Vec<u8>,
    pub opened: bool,
    pub last_error: Option<String>,
    pub file_identity: Option<(u64, u64)>,
    pub initial_load: Option<InitialLoad>,
    pub initial_load_completed: bool,
}

/// How far a file has been read, without its texts.
pub struct CursorModel {
    pub offset: u64,
    pub line: u64,
    pub partial: Seq<u8>,
    pub opened: bool,
    pub last_error: Option<Seq<char>>,
    pub file_identity: Option<(u64, u64)>,
    pub initial_load: Option<InitialLoad>,
    pub initial_load_completed: bool,
}

impl View for FileCursor {
    type V = CursorModel;

    open spec fn view(&self) -> CursorModel {
        CursorModel {
            offset: self.offset,
            line: self.line,
            partial: self.partial@,
            opened: self.opened,
            last_error: option_view(self.last_error),
            file_identity: self.file_identity,
            initial_load: self.initial_load,
            initial_load_completed: self.initial_load_completed,
        }
    }
}

/// Whether a file is another one than before, or shorter than what was read.
pub open spec fn is_replaced(
    cursor: CursorModel,
    length: u64,
    identity: Option<(u64, u64)>,
) -> bool {
    (cursor.file_identity is Some && cursor.file_identity != identity) || length < cursor.offset
}

/// A cursor that reads a file that took the place of another from its start.
pub open spec fn restarted(cursor: CursorModel) -> CursorModel {
    CursorModel {
        offset: 0,
        line: 0,
        partial: Seq::empty(),
        initial_load: None,
        initial_load_completed: false,
        ..cursor
    }
}

/// A cursor at the start of a poll of a file of some length.
pub open spec fn polled(
    cursor: CursorModel,
    length: u64,
    identity: Option<(u64, u64)>,
    now: u64,
) -> CursorModel {
    let current = if is_replaced(cursor, length, identity) {
        restarted(cursor)
    } else {
        cursor
    };
    CursorModel {
        file_identity: identity,
        initial_load: if starts_load(current) {
            Some(
                InitialLoad {
                    started_nanos: now,
                    file_size_bytes: length,
                    event_count: 0,
                    invalid_count: 0,
                },
            )
        } else {
            current.initial_load
        },
        ..current
    }
}

/// Whether the first reading of a file begins.
pub open spec fn starts_load(cursor: CursorModel) -> bool {
    cursor.initial_load is None && !cursor.initial_load_completed
}

/// What is told at the start of a poll.
pub open spec fn poll_messages(
    cursor: CursorModel,
    length: u64,
    identity: Option<(u64, u64)>,
) -> Seq<MessageModel> {
    let replaced = is_replaced(cursor, length, identity);
    let current = if replaced {
        restarted(cursor)
    } else {
        cursor
    };
    (if replaced {
        seq![MessageModel::SourceReplaced]
    } else {
        Seq::empty()
    }) + (if starts_load(current) {
        seq![MessageModel::InitialLoadStarted { file_size_bytes: length }]
    } else {
        Seq::empty()
    })
}

/// What is told when a file could be read for the first time.
pub open spec fn open_messages(cursor: CursorModel) -> Seq<MessageModel> {
    if cursor.opened {
        Seq::empty()
    } else {
        seq![MessageModel::SourceOpened]
    }
}

/// Whether the first reading of a file is at its end.
pub open spec fn load_is_done(cursor: CursorModel) -> bool {
    cursor.initial_load matches Some(load) && cursor.offset >= load.file_size_bytes
}

/// A cursor after the end of the first reading was looked for.
pub open spec fn load_completed(cursor: CursorModel) -> CursorModel {
    if load_is_done(cursor) {
        CursorModel { initial_load: None, initial_load_completed: true, ..cursor }
    } else {
        cursor
    }
}

/// The time from one instant to a later one.
pub open spec fn time_between(start: u64, end: u64) -> u64 {
    if end < start {
        0
    } else {
        (end - start) as u64
    }
}

/// What is told at the end of the first reading.
pub open spec fn load_messages(cursor: CursorModel, now: u64) -> Seq<MessageModel> {
    match cursor.initial_load {
        Some(load) => if cursor.offset >= load.file_size_bytes {
            seq![
                MessageModel::InitialLoadCompleted {
                    file_size_bytes: load.file_size_bytes,
                    event_count: load.event_count,
                    invalid_count: load.invalid_count,
                    duration_nanos: time_between(load.started_nanos, now),
                },
            ]
        } else {
            Seq::empty()
        },
        None => Seq::empty(),
    }
}

/// The views of messages.
pub open spec fn message_views(messages: Seq<ReaderMessage<()>>) -> Seq<MessageModel> {
    messages.map_values(|message: ReaderMessage<()>| message@)
}

/// Adds a message to a list.
fn tell(messages: &mut Vec<ReaderMessage<()>>, message: ReaderMessage<()>)
    ensures
        message_views(final(messages)@) == message_views(old(messages)@).push(message@),
{
    let ghost before = message_views(messages@);
    messages.push(message);
    assert(message_views(messages@) == before.push(message@));
}

impl Default for FileCursor {
    fn default() -> (cursor: Self)
        ensures
            cursor@ == (CursorModel {
                offset: 0,
                line: 0,
                partial: Seq::empty(),
                opened: false,
                last_error: None,
                file_identity: None,
                initial_load: None,
                initial_load_completed: false,
            }),
    {
        FileCursor {
            offset: 0,
            line: 0,
            partial: Vec::new(),
            opened: false,
            last_error: None,
            file_identity: None,
            initial_load: None,
            initial_load_completed: false,
        }
    }
}

impl FileCursor {
    /// Begins a poll of a file of some length: what is told, and from where to
    /// read on where there is more.
    pub fn start_poll(&mut self, length: u64, identity: Option<(u64, u64)>, now: u64) -> (step: (
        Vec<ReaderMessage<()>>,
        Option<u64>,
    ))
        ensures
            ({
                let begun = polled(old(self)@, length, identity, now);
                let messages = poll_messages(old(self)@, length, identity);
                if length == begun.offset {
                    &&& step.1 is None
                    &&& message_views(step.0@) == messages + open_messages(begun) + load_messages(
                        begun,
                        now,
                    )
                    &&& final(self)@ == load_completed(CursorModel { opened: true, ..begun })
                } else {
                    &&& step.1 == Some(begun.offset)
                    &&& message_views(step.0@) == messages
                    &&& final(self)@ == begun
                }
            }),
    {
        let ghost before = self@;
        let mut messages: Vec<ReaderMessage<()>> = Vec::new();
        let other = match (self.file_identity, identity) {
            (Some(known), Some(found)) => known.0 != found.0 || known.1 != found.1,
            (Some(_), None) => true,
            (None, _) => false,
        };
        if other || length < self.offset {
            tell(&mut messages, ReaderMessage::SourceReplaced(()));
            self.offset = 0;
            self.line = 0;
            self.partial.clear();
            self.initial_load = None;
            self.initial_load_completed = false;
        }
        self.file_identity = identity;
        if self.initial_load.is_none() && !self.initial_load_completed {
            self.initial_load = Some(
                InitialLoad {
                    started_nanos: now,
                    file_size_bytes: length,
                    event_count: 0,
                    invalid_count: 0,
                },
            );
            tell(
                &mut messages,
                ReaderMessage::InitialLoadStarted { path: (), file_size_bytes: length },
            );
        }
        let ghost begun = polled(before, length, identity, now);
        assert(self@.partial == begun.partial);
        assert(self@ == begun);
        assert(message_views(messages@) == poll_messages(before, length, identity));
        if length != self.offset {
            return (messages, Some(self.offset));
        }
        self.announce_open(&mut messages);
        self.complete_initial_load(&mut messages, now);
        (messages, None)
    }

    /// Tells that a file could be read, once.
    fn announce_open(&mut self, messages: &mut Vec<ReaderMessage<()>>)
        ensures
            final(self)@ == (CursorModel { opened: true, ..old(self)@ }),
            message_views(final(messages)@) == message_views(old(messages)@) + open_messages(
                old(self)@,
            ),
    {
        if !self.opened {
            self.opened = true;
            tell(messages, ReaderMessage::SourceOpened(()));
        }
        assert(message_views(messages@) == message_views(old(messages)@) + open_messages(
            old(self)@,
        ));
    }

    /// Tells that the first reading is done, where it is.
    fn complete_initial_load(&mut self, messages: &mut Vec<ReaderMessage<()>>, now: u64)
        ensures
            final(self)@ == load_completed(old(self)@),
            message_views(final(messages)@) == message_views(old(messages)@) + load_messages(
                old(self)@,
                now,
            ),
    {
        if let Some(load) = self.initial_load {
            if self.offset >= load.file_size_bytes {
                self.initial_load = None;
                self.initial_load_completed = true;
                let duration_nanos: u64 = if now < load.started_nanos {
                    0
                } else {
                    now - load.started_nanos
                };
                tell(
                    messages,
                    ReaderMessage::InitialLoadCompleted {
                        path: (),
                        file_size_bytes: load.file_size_bytes,
                        event_count: load.event_count,
                        invalid_count: load.invalid_count,
                        duration_nanos,
                    },
                );
            }
        }
        assert(message_views(messages@) == message_views(old(messages)@) + load_messages(
            old(self)@,
            now,
        ));
    }

    /// Takes the bytes that were read: what is told, and the records that are
    /// complete. The bytes of the last record stay until its line ends.
    pub fn receive(&mut self, bytes: &[u8]) -> (step: (Vec<ReaderMessage<()>>, Vec<Vec<u8>>))
        requires
            tail_of(old(self)@.partial) == old(self)@.partial,
            old(self)@.offset + bytes@.len() <= u64::MAX,
            old(self)@.partial.len() + bytes@.len() <= usize::MAX,
        ensures
            final(self)@ == received(old(self)@, bytes@),
            tail_of(final(self)@.partial) == final(self)@.partial,
            message_views(step.0@) == open_messages(old(self)@),
            byte_views(step.1@) == records_of(old(self)@.partial + bytes@),
    {
        let ghost kept = self@.partial;
        let mut messages: Vec<ReaderMessage<()>> = Vec::new();
        self.announce_open(&mut messages);
        assert(message_views(messages@) == open_messages(old(self)@));
        self.offset = self.offset + bytes.len() as u64;
        let mut records: Vec<Vec<u8>> = Vec::new();
        let mut index: usize = 0;
        proof {
            assert(kept + bytes@.take(0) == kept);
            lemma_tail_has_no_end(kept);
            assert(byte_views(records@) == records_of(kept));
        }
        while index < bytes.len()
            invariant
                index <= bytes@.len(),
                self@ == (CursorModel {
                    offset: (old(self)@.offset + bytes@.len()) as u64,
                    partial: tail_of(kept + bytes@.take(index as int)),
                    opened: true,
                    ..old(self)@
                }),
                byte_views(records@) == records_of(kept + bytes@.take(index as int)),
            decreases bytes@.len() - index,
        {
            let ghost before = kept + bytes@.take(index as int);
            let ghost after = kept + bytes@.take(index + 1);
            assert(after.drop_last() == before);
            assert(after.last() == bytes@[index as int]);
            let byte: u8 = bytes[index];
            if byte == LINE_END {
                let ghost line = self.partial@;
                let ghost listed = byte_views(records@);
                let mut record: Vec<u8> = Vec::new();
                std::mem::swap(&mut record, &mut self.partial);
                if record.len() > 0 {
                    if record[record.len() - 1] == CARRIAGE_RETURN {
                        record.pop();
                    }
                    assert(record@ == record_of(line));
                    records.push(record);
                    assert(byte_views(records@) == listed.push(record_of(line)));
                    assert(records_of(after) == records_of(before).push(record_of(line)));
                } else {
                    assert(records_of(after) == records_of(before));
                }
            } else {
                self.partial.push(byte);
            }
            index += 1;
        }
        proof {
            assert(bytes@.take(index as int) == bytes@);
            lemma_tail_has_no_end(kept + bytes@);
        }
        (messages, records)
    }

    /// Counts a record that was read, and adds its event to a batch: what is told
    /// at once.
    pub fn accept(&mut self, batch: &mut Vec<LogEvent>, result: Result<LogEvent, String>) -> (told:
        Option<ReaderMessage<()>>)
        requires
            old(self)@.line < u64::MAX,
            old(self)@.initial_load matches Some(load) ==> load.event_count < u64::MAX
                && load.invalid_count < u64::MAX,
        ensures
            final(self)@ == counted(old(self)@, result is Ok),
            told_view(told) == told_of(old(self)@.line, old(batch)@, result),
            final(batch)@ == batch_after(old(batch)@, result),
    {
        self.line = self.line + 1;
        match result {
            Ok(event) => {
                if let Some(load) = self.initial_load {
                    self.initial_load = Some(
                        InitialLoad { event_count: load.event_count + 1, ..load },
                    );
                }
                batch.push(event);
                if batch.len() >= MAX_BATCH_EVENTS {
                    let mut full: Vec<LogEvent> = Vec::new();
                    std::mem::swap(&mut full, batch);
                    Some(ReaderMessage::Batch(full))
                } else {
                    None
                }
            },
            Err(error) => {
                if let Some(load) = self.initial_load {
                    self.initial_load = Some(
                        InitialLoad { invalid_count: load.invalid_count + 1, ..load },
                    );
                }
                Some(ReaderMessage::InvalidRecord { path: (), line: self.line, error })
            },
        }
    }

    /// Ends the reading of records: what is left of the batch is told, and that
    /// the first reading is done, where it is.
    pub fn finish_read(&mut self, batch: Vec<LogEvent>, now: u64) -> (messages: Vec<
        ReaderMessage<()>,
    >)
        ensures
            final(self)@ == load_completed(old(self)@),
            message_views(messages@) == rest_of(batch@) + load_messages(old(self)@, now),
    {
        let ghost left = batch@;
        let mut messages: Vec<ReaderMessage<()>> = Vec::new();
        if batch.len() > 0 {
            tell(&mut messages, ReaderMessage::Batch(batch));
        }
        assert(message_views(messages@) == rest_of(left));
        self.complete_initial_load(&mut messages, now);
        messages
    }

    /// Takes what was read from the records of a poll, one result for each: what is told
    /// of them, and that the first reading is done, where it is.
    pub fn read_records(&mut self, results: Vec<Result<LogEvent, String>>, now: u64) -> (messages:
        Vec<ReaderMessage<()>>)
        requires
            counts_more(old(self)@, results@.len()),
        ensures
            final(self)@ == load_completed(counted_all(old(self)@, results@)),
            message_views(messages@) == told_of_results(old(self)@.line, results@)
                + load_messages(counted_all(old(self)@, results@), now),
    {
        let mut results = results;
        let ghost given = results@;
        let ghost start = self@;
        let mut messages: Vec<ReaderMessage<()>> = Vec::new();
        let mut batch: Vec<LogEvent> = Vec::new();
        let mut index: usize = 0;
        assert(given.take(0) == Seq::<Result<LogEvent, String>>::empty());
        assert(message_views(messages@) == Seq::<MessageModel>::empty());
        while index < results.len()
            invariant
                index <= results.len(),
                results@.len() == given.len(),
                forall|i: int| index <= i < given.len() ==> #[trigger] results@[i] == given[i],
                counts_more(start, given.len()),
                self@ == counted_all(start, given.take(index as int)),
                batch@ == batch_after_all(given.take(index as int)),
                message_views(messages@) == told_of_all(start.line, given.take(index as int)),
            decreases results.len() - index,
        {
            let mut result: Result<LogEvent, String> = Err(String::new());
            std::mem::swap(&mut results[index], &mut result);
            proof {
                assert(given.take(index + 1).drop_last() == given.take(index as int));
                lemma_counted_all(start, given.take(index as int));
            }
            let told = self.accept(&mut batch, result);
            if let Some(message) = told {
                tell(&mut messages, message);
            }
            index += 1;
        }
        assert(given.take(index as int) == given);
        let mut rest = self.finish_read(batch, now);
        let ghost told = messages@;
        let ghost last = rest@;
        messages.append(&mut rest);
        assert(message_views(told + last) == message_views(told) + message_views(last));
        messages
    }

    /// Ends a poll: an error is told where it is another one than before, and the
    /// end of an error is told.
    pub fn end_poll(&mut self, result: Result<(), String>) -> (told: Option<ReaderMessage<()>>)
        ensures
            match result {
                Ok(_) => {
                    &&& final(self)@ == (CursorModel { last_error: None, ..old(self)@ })
                    &&& told_view(told) == if old(self)@.last_error is Some {
                        Some(MessageModel::SourceRecovered)
                    } else {
                        None
                    }
                },
                Err(error) => {
                    &&& final(self)@ == (CursorModel { last_error: Some(error@), ..old(self)@ })
                    &&& told_view(told) == if old(self)@.last_error == Some(error@) {
                        None
                    } else {
                        Some(MessageModel::SourceError { error: error@ })
                    }
                },
            },
    {
        match result {
            Ok(_) => {
                let recovered = self.last_error.is_some();
                self.last_error = None;
                if recovered {
                    Some(ReaderMessage::SourceRecovered(()))
                } else {
                    None
                }
            },
            Err(error) => {
                let known = match &self.last_error {
                    Some(previous) => same(previous.as_str(), error.as_str()),
                    None => false,
                };
                let told = if known {
                    None
                } else {
                    Some(ReaderMessage::SourceError { path: (), error: error.clone() })
                };
                self.last_error = Some(error);
                told
            },
        }
    }
}

/// The view of an optional message.
pub open spec fn told_view(told: Option<ReaderMessage<()>>) -> Option<MessageModel> {
    match told {
        Some(message) => Some(message@),
        None => None,
    }
}

/// A cursor after a record was counted.
pub open spec fn counted(cursor: CursorModel, valid: bool) -> CursorModel {
    CursorModel {
        line: (cursor.line + 1) as u64,
        initial_load: match cursor.initial_load {
            Some(load) => Some(
                if valid {
                    InitialLoad { event_count: (load.event_count + 1) as u64, ..load }
                } else {
                    InitialLoad { invalid_count: (load.invalid_count + 1) as u64, ..load }
                },
            ),
            None => None,
        },
        ..cursor
    }
}

/// What is told at once of a record behind some lines, with a batch of events.
pub open spec fn told_of(
    lines: u64,
    batch: Seq<LogEvent>,
    result: Result<LogEvent, String>,
) -> Option<MessageModel> {
    match result {
        Ok(event) => if batch.len() + 1 >= MAX_BATCH_EVENTS {
            Some(MessageModel::Batch(batch.push(event)))
        } else {
            None
        },
        Err(error) => Some(
            MessageModel::InvalidRecord { line: (lines + 1) as u64, error: error@ },
        ),
    }
}

/// A batch of events after a record.
pub open spec fn batch_after(
    batch: Seq<LogEvent>,
    result: Result<LogEvent, String>,
) -> Seq<LogEvent> {
    match result {
        Ok(event) => if batch.len() + 1 >= MAX_BATCH_EVENTS {
            Seq::empty()
        } else {
            batch.push(event)
        },
        Err(_) => batch,
    }
}

/// What is told of the rest of a batch.
pub open spec fn rest_of(batch: Seq<LogEvent>) -> Seq<MessageModel> {
    if batch.len() > 0 {
        seq![MessageModel::Batch(batch)]
    } else {
        Seq::empty()
    }
}

/// The batch after some records.
pub open spec fn batch_after_all(results: Seq<Result<LogEvent, String>>) -> Seq<LogEvent>
    decreases results.len(),
{
    if results.len() == 0 {
        Seq::empty()
    } else {
        batch_after(batch_after_all(results.drop_last()), results.last())
    }
}

/// What is told at once of some records behind some lines.
pub open spec fn told_of_all(lines: u64, results: Seq<Result<LogEvent, String>>) -> Seq<MessageModel>
    decreases results.len(),
{
    if results.len() == 0 {
        Seq::empty()
    } else {
        let before = results.drop_last();
        match told_of(
            (lines + before.len()) as u64,
            batch_after_all(before),
            results.last(),
        ) {
            Some(message) => told_of_all(lines, before).push(message),
            None => told_of_all(lines, before),
        }
    }
}

/// The events of the records that are valid.
pub open spec fn valid_events(results: Seq<Result<LogEvent, String>>) -> Seq<LogEvent>
    decreases results.len(),
{
    if results.len() == 0 {
        Seq::empty()
    } else {
        match results.last() {
            Ok(event) => valid_events(results.drop_last()).push(event),
            Err(_) => valid_events(results.drop_last()),
        }
    }
}

/// The events in the batches of some messages.
pub open spec fn batched_events(messages: Seq<MessageModel>) -> Seq<LogEvent>
    decreases messages.len(),
{
    if messages.len() == 0 {
        Seq::empty()
    } else {
        match messages.last() {
            MessageModel::Batch(events) => batched_events(messages.drop_last()) + events,
            _ => batched_events(messages.drop_last()),
        }
    }
}

proof fn lemma_batching(lines: u64, results: Seq<Result<LogEvent, String>>)
    ensures
        batched_events(told_of_all(lines, results)) + batch_after_all(results) == valid_events(
            results,
        ),
        batch_after_all(results).len() < MAX_BATCH_EVENTS,
        forall|i: int|
            0 <= i < told_of_all(lines, results).len() ==> ((#[trigger] told_of_all(
                lines,
                results,
            )[i]) matches MessageModel::Batch(events) ==> 0 < events.len() <= MAX_BATCH_EVENTS),
    decreases results.len(),
{
    if results.len() > 0 {
        let before = results.drop_last();
        lemma_batching(lines, before);
        let told = told_of_all(lines, before);
        let batch = batch_after_all(before);
        match told_of((lines + before.len()) as u64, batch, results.last()) {
            Some(message) => {
                assert(told_of_all(lines, results) == told.push(message));
                assert(told.push(message).drop_last() == told);
                match results.last() {
                    Ok(event) => {
                        assert(batched_events(told) + batch.push(event) == (batched_events(told)
                            + batch).push(event));
                        let all = batched_events(told) + batch.push(event);
                        assert(all + Seq::<LogEvent>::empty() == all);
                    },
                    Err(_) => {},
                }
            },
            None => {
                match results.last() {
                    Ok(event) => {
                        assert(batched_events(told) + batch.push(event) == (batched_events(told)
                            + batch).push(event));
                    },
                    Err(_) => {},
                }
            },
        }
    } else {
        assert(batched_events(told_of_all(lines, results)) + batch_after_all(results)
            == valid_events(results));
    }
}

/// The batches that are told hold the events of the valid records in their order,
/// each once; none of them is empty, and none too large.
pub proof fn lemma_batches_hold_events(lines: u64, results: Seq<Result<LogEvent, String>>)
    ensures
        ({
            let told = told_of_all(lines, results) + rest_of(batch_after_all(results));
            &&& batched_events(told) == valid_events(results)
            &&& forall|i: int|
                0 <= i < told.len() ==> ((#[trigger] told[i]) matches MessageModel::Batch(events)
                    ==> 0 < events.len() <= MAX_BATCH_EVENTS)
        }),
{
    lemma_batching(lines, results);
    let first = told_of_all(lines, results);
    let batch = batch_after_all(results);
    let told = first + rest_of(batch);
    if batch.len() > 0 {
        assert(told.drop_last() == first);
        assert(told.last() == MessageModel::Batch(batch));
    } else {
        assert(told == first);
        assert(batched_events(first) + batch == batched_events(first));
    }
}

/// What is told of the results of all records of a poll, behind some lines.
pub open spec fn told_of_results(
    lines: u64,
    results: Seq<Result<LogEvent, String>>,
) -> Seq<MessageModel> {
    told_of_all(lines, results) + rest_of(batch_after_all(results))
}

/// A cursor after some records were counted.
pub open spec fn counted_all(
    cursor: CursorModel,
    results: Seq<Result<LogEvent, String>>,
) -> CursorModel
    decreases results.len(),
{
    if results.len() == 0 {
        cursor
    } else {
        counted(counted_all(cursor, results.drop_last()), results.last() is Ok)
    }
}

/// Whether a cursor can count some records more.
pub open spec fn counts_more(cursor: CursorModel, more: nat) -> bool {
    &&& cursor.line + more <= u64::MAX
    &&& cursor.initial_load matches Some(load) ==> load.event_count + more <= u64::MAX
        && load.invalid_count + more <= u64::MAX
}

/// What counting changes.
proof fn lemma_counted_all(cursor: CursorModel, results: Seq<Result<LogEvent, String>>)
    requires
        counts_more(cursor, results.len()),
    ensures
        ({
            let after = counted_all(cursor, results);
            &&& after.line == cursor.line + results.len()
            &&& after.initial_load is Some <==> cursor.initial_load is Some
            &&& after.initial_load matches Some(load) ==> {
                &&& load.event_count <= cursor.initial_load->0.event_count + results.len()
                &&& load.invalid_count <= cursor.initial_load->0.invalid_count + results.len()
            }
        }),
    decreases results.len(),
{
    if results.len() > 0 {
        lemma_counted_all(cursor, results.drop_last());
    }
}

/// What counting leaves as it is.
proof fn lemma_counting_keeps_place(cursor: CursorModel, results: Seq<Result<LogEvent, String>>)
    ensures
        counted_all(cursor, results).offset == cursor.offset,
        counted_all(cursor, results).partial == cursor.partial,
        counted_all(cursor, results).file_identity == cursor.file_identity,
    decreases results.len(),
{
    if results.len() > 0 {
        lemma_counting_keeps_place(cursor, results.drop_last());
    }
}

/// A file that was read to its end in parts gives the records that it holds: those
/// of the parts, one after the other.
pub proof fn lemma_records_in_parts(first: Seq<u8>, second: Seq<u8>)
    ensures
        records_of(first + second) == records_of(first) + records_of(tail_of(first) + second),
{
    lemma_lines_in_parts(first, second);
    assert(records_of(first + second) =~= records_of(first) + records_of(tail_of(first) + second));
}

/// A poll of a file: its length and which file it is, the bytes that were read, and when
/// the poll began and ended.
pub struct PollModel {
    pub length: u64,
    pub identity: Option<(u64, u64)>,
    pub bytes: Seq<u8>,
    pub began: u64,
    pub ended: u64,
}

/// A cursor that took the bytes that were read.
pub open spec fn received(cursor: CursorModel, bytes: Seq<u8>) -> CursorModel {
    CursorModel {
        offset: (cursor.offset + bytes.len()) as u64,
        partial: tail_of(cursor.partial + bytes),
        opened: true,
        ..cursor
    }
}

/// What is read from the records that a poll completes.
pub open spec fn poll_results(
    cursor: CursorModel,
    poll: PollModel,
    read: spec_fn(Seq<u8>) -> Result<LogEvent, String>,
) -> Seq<Result<LogEvent, String>> {
    records_of(cursor.partial + poll.bytes).map_values(read)
}

/// A cursor after a poll without an error.
pub open spec fn followed(
    cursor: CursorModel,
    poll: PollModel,
    read: spec_fn(Seq<u8>) -> Result<LogEvent, String>,
) -> CursorModel {
    let begun = polled(cursor, poll.length, poll.identity, poll.began);
    let done = if poll.length == begun.offset {
        load_completed(CursorModel { opened: true, ..begun })
    } else {
        load_completed(counted_all(received(begun, poll.bytes), poll_results(begun, poll, read)))
    };
    CursorModel { last_error: None, ..done }
}

/// What is told by a poll without an error.
pub open spec fn poll_told(
    cursor: CursorModel,
    poll: PollModel,
    read: spec_fn(Seq<u8>) -> Result<LogEvent, String>,
) -> Seq<MessageModel> {
    let begun = polled(cursor, poll.length, poll.identity, poll.began);
    poll_messages(cursor, poll.length, poll.identity) + open_messages(begun) + (if poll.length
        == begun.offset {
        load_messages(begun, poll.began)
    } else {
        let results = poll_results(begun, poll, read);
        told_of_results(begun.line, results) + load_messages(
            counted_all(received(begun, poll.bytes), results),
            poll.ended,
        )
    }) + (if cursor.last_error is Some {
        seq![MessageModel::SourceRecovered]
    } else {
        Seq::empty()
    })
}

/// A cursor after some polls.
pub open spec fn followed_all(
    cursor: CursorModel,
    polls: Seq<PollModel>,
    read: spec_fn(Seq<u8>) -> Result<LogEvent, String>,
) -> CursorModel
    decreases polls.len(),
{
    if polls.len() == 0 {
        cursor
    } else {
        followed(followed_all(cursor, polls.drop_last(), read), polls.last(), read)
    }
}

/// What is told by some polls.
pub open spec fn polls_told(
    cursor: CursorModel,
    polls: Seq<PollModel>,
    read: spec_fn(Seq<u8>) -> Result<LogEvent, String>,
) -> Seq<MessageModel>
    decreases polls.len(),
{
    if polls.len() == 0 {
        Seq::empty()
    } else {
        let before = polls.drop_last();
        polls_told(cursor, before, read) + poll_told(
            followed_all(cursor, before, read),
            polls.last(),
            read,
        )
    }
}

/// The bytes that some polls read.
pub open spec fn bytes_of(polls: Seq<PollModel>) -> Seq<u8>
    decreases polls.len(),
{
    if polls.len() == 0 {
        Seq::empty()
    } else {
        bytes_of(polls.drop_last()) + polls.last().bytes
    }
}

/// Whether a file only grows over some polls: it is never replaced or shortened, and where
/// it has not grown nothing is read.
pub open spec fn only_grows(
    cursor: CursorModel,
    polls: Seq<PollModel>,
    read: spec_fn(Seq<u8>) -> Result<LogEvent, String>,
) -> bool
    decreases polls.len(),
{
    polls.len() > 0 ==> {
        let current = followed_all(cursor, polls.drop_last(), read);
        let poll = polls.last();
        &&& only_grows(cursor, polls.drop_last(), read)
        &&& !is_replaced(current, poll.length, poll.identity)
        &&& poll.length == current.offset ==> poll.bytes.len() == 0
    }
}

proof fn lemma_batched_add(first: Seq<MessageModel>, second: Seq<MessageModel>)
    ensures
        batched_events(first + second) == batched_events(first) + batched_events(second),
    decreases second.len(),
{
    if second.len() == 0 {
        assert(first + second == first);
        assert(batched_events(first) + Seq::<LogEvent>::empty() == batched_events(first));
    } else {
        let before = second.drop_last();
        lemma_batched_add(first, before);
        assert((first + second).drop_last() == first + before);
        assert(batched_events(first + second) =~= batched_events(first) + batched_events(second));
    }
}

proof fn lemma_valid_add(
    first: Seq<Result<LogEvent, String>>,
    second: Seq<Result<LogEvent, String>>,
)
    ensures
        valid_events(first + second) == valid_events(first) + valid_events(second),
    decreases second.len(),
{
    if second.len() == 0 {
        assert(first + second == first);
        assert(valid_events(first) + Seq::<LogEvent>::empty() == valid_events(first));
    } else {
        let before = second.drop_last();
        lemma_valid_add(first, before);
        assert((first + second).drop_last() == first + before);
        assert(valid_events(first + second) =~= valid_events(first) + valid_events(second));
    }
}

proof fn lemma_no_batches(messages: Seq<MessageModel>)
    requires
        forall|i: int| 0 <= i < messages.len() ==> !((#[trigger] messages[i]) is Batch),
    ensures
        batched_events(messages) == Seq::<LogEvent>::empty(),
    decreases messages.len(),
{
    if messages.len() > 0 {
        lemma_no_batches(messages.drop_last());
        assert(!(messages[messages.len() - 1] is Batch));
    }
}

/// The batches of one poll hold the events of the records that it completes, and the bytes
/// behind them are kept.
proof fn lemma_poll_told(
    cursor: CursorModel,
    poll: PollModel,
    read: spec_fn(Seq<u8>) -> Result<LogEvent, String>,
)
    requires
        tail_of(cursor.partial) == cursor.partial,
        !is_replaced(cursor, poll.length, poll.identity),
        poll.length == cursor.offset ==> poll.bytes.len() == 0,
    ensures
        batched_events(poll_told(cursor, poll, read)) == valid_events(
            records_of(cursor.partial + poll.bytes).map_values(read),
        ),
        followed(cursor, poll, read).partial == tail_of(cursor.partial + poll.bytes),
{
    let begun = polled(cursor, poll.length, poll.identity, poll.began);
    let results = poll_results(begun, poll, read);
    let first = poll_messages(cursor, poll.length, poll.identity) + open_messages(begun);
    let last = if cursor.last_error is Some {
        seq![MessageModel::SourceRecovered]
    } else {
        Seq::empty()
    };
    lemma_no_batches(first);
    lemma_no_batches(last);
    if poll.length == begun.offset {
        let middle = load_messages(begun, poll.began);
        lemma_no_batches(middle);
        lemma_batched_add(first, middle);
        lemma_batched_add(first + middle, last);
        assert(cursor.partial + poll.bytes == cursor.partial);
        lemma_tail_has_no_end(cursor.partial);
        assert(records_of(cursor.partial) == Seq::<Seq<u8>>::empty());
        assert(results == Seq::<Result<LogEvent, String>>::empty());
    } else {
        let told = told_of_results(begun.line, results);
        let counting = counted_all(received(begun, poll.bytes), results);
        let loaded = load_messages(counting, poll.ended);
        lemma_no_batches(loaded);
        lemma_batches_hold_events(begun.line, results);
        lemma_batched_add(told, loaded);
        lemma_batched_add(first, told + loaded);
        lemma_batched_add(first + (told + loaded), last);
        lemma_counting_keeps_place(received(begun, poll.bytes), results);
    }
    assert(batched_events(poll_told(cursor, poll, read)) =~= valid_events(results));
}

/// However a growing file is cut into polls, their batches hold the valid events of its
/// complete lines, in their order and each once. A last line without an end waits.
pub proof fn lemma_polls_hold_events(
    cursor: CursorModel,
    polls: Seq<PollModel>,
    read: spec_fn(Seq<u8>) -> Result<LogEvent, String>,
)
    requires
        tail_of(cursor.partial) == cursor.partial,
        only_grows(cursor, polls, read),
    ensures
        batched_events(polls_told(cursor, polls, read)) == valid_events(
            records_of(cursor.partial + bytes_of(polls)).map_values(read),
        ),
        followed_all(cursor, polls, read).partial == tail_of(cursor.partial + bytes_of(polls)),
    decreases polls.len(),
{
    let whole = cursor.partial + bytes_of(polls);
    if polls.len() == 0 {
        assert(whole == cursor.partial);
        lemma_tail_has_no_end(cursor.partial);
        assert(records_of(whole).map_values(read) == Seq::<Result<LogEvent, String>>::empty());
    } else {
        let before = polls.drop_last();
        let poll = polls.last();
        let current = followed_all(cursor, before, read);
        let known = cursor.partial + bytes_of(before);
        lemma_polls_hold_events(cursor, before, read);
        lemma_tail_has_no_end(known);
        lemma_poll_told(current, poll, read);
        assert(whole == known + poll.bytes);
        lemma_lines_in_parts(known, poll.bytes);
        lemma_records_in_parts(known, poll.bytes);
        let earlier = records_of(known).map_values(read);
        let later = records_of(tail_of(known) + poll.bytes).map_values(read);
        assert(records_of(whole).map_values(read) == earlier + later);
        lemma_valid_add(earlier, later);
        lemma_batched_add(polls_told(cursor, before, read), poll_told(current, poll, read));
    }
}

/// A line that is complete is one more record, without its end, be that a line feed alone or
/// behind a carriage return. One that is not complete is kept until it is.
pub proof fn lemma_complete_lines_are_records(bytes: Seq<u8>, line: Seq<u8>)
    requires
        tail_of(bytes).len() == 0,
        line.len() > 0,
        forall|i: int| 0 <= i < line.len() ==> #[trigger] line[i] != 10 && line[i] != 13,
    ensures
        records_of(bytes + line + seq![10u8]) == records_of(bytes).push(line),
        records_of(bytes + line + seq![13u8, 10u8]) == records_of(bytes).push(line),
        tail_of(bytes + line + seq![10u8]).len() == 0,
        records_of(bytes + line) == records_of(bytes),
        tail_of(bytes + line) == line,
        records_of(bytes + seq![10u8]) == records_of(bytes),
{
    reveal_with_fuel(lines_of, 2);
    reveal_with_fuel(tail_of, 2);
    lemma_line_stays(bytes, line);
    let record = |line: Seq<u8>| record_of(line);
    let known = lines_of(bytes);
    let feed = bytes + line + seq![10u8];
    assert(feed.drop_last() == bytes + line);
    assert(lines_of(feed) == known.push(line));
    assert(known.push(line).map_values(record) == known.map_values(record).push(record(line)));
    let longer = line.push(13);
    lemma_line_stays(bytes, longer);
    let both = bytes + line + seq![13u8, 10u8];
    assert(both.drop_last() == bytes + longer);
    assert(lines_of(both) == known.push(longer));
    assert(longer.drop_last() == line);
    assert(known.push(longer).map_values(record) == known.map_values(record).push(
        record(longer),
    ));
    let empty = bytes + seq![10u8];
    assert(empty.drop_last() == bytes);
}

proof fn lemma_line_stays(bytes: Seq<u8>, line: Seq<u8>)
    requires
        tail_of(bytes).len() == 0,
        forall|i: int| 0 <= i < line.len() ==> #[trigger] line[i] != 10,
    ensures
        lines_of(bytes + line) == lines_of(bytes),
        tail_of(bytes + line) == line,
    decreases line.len(),
{
    if line.len() == 0 {
        assert(bytes + line == bytes);
        assert(tail_of(bytes) == line);
    } else {
        let before = line.drop_last();
        assert forall|i: int| 0 <= i < before.len() implies #[trigger] before[i] != 10 by {
            assert(before[i] == line[i]);
        }
        lemma_line_stays(bytes, before);
        let all = bytes + line;
        assert(all.drop_last() == bytes + before);
        assert(all.last() == line[line.len() - 1]);
        assert(before.push(line.last()) == line);
    }
}

/// A file that is another one than before, or that has become shorter than what was read, is
/// read from its start; any other is read on where the reading stopped.
pub proof fn lemma_replaced_files_are_read_anew(
    cursor: CursorModel,
    length: u64,
    identity: Option<(u64, u64)>,
    now: u64,
)
    ensures
        length < cursor.offset ==> is_replaced(cursor, length, identity),
        cursor.file_identity is Some && identity is Some && cursor.file_identity != identity
            ==> is_replaced(cursor, length, identity),
        cursor.file_identity == identity && length >= cursor.offset ==> !is_replaced(
            cursor,
            length,
            identity,
        ),
        cursor.file_identity is None && length >= cursor.offset ==> !is_replaced(
            cursor,
            length,
            identity,
        ),
        is_replaced(cursor, length, identity) ==> polled(cursor, length, identity, now).offset == 0
            && polled(cursor, length, identity, now).line == 0 && polled(
            cursor,
            length,
            identity,
            now,
        ).partial.len() == 0,
        !is_replaced(cursor, length, identity) ==> polled(cursor, length, identity, now).offset
            == cursor.offset && polled(cursor, length, identity, now).line == cursor.line && polled(
            cursor,
            length,
            identity,
            now,
        ).partial == cursor.partial,
        poll_messages(cursor, length, identity).contains(MessageModel::SourceReplaced)
            <==> is_replaced(cursor, length, identity),
{
    let messages = poll_messages(cursor, length, identity);
    if is_replaced(cursor, length, identity) {
        assert(messages[0] == MessageModel::SourceReplaced);
    }
}

/// A record that is no event is told of with its line: the number of the lines before it and
/// one. Events are told of in batches, of 2048 at most.
pub proof fn lemma_faulty_records_are_told_by_line(
    lines: u64,
    batch: Seq<LogEvent>,
    event: LogEvent,
    error: String,
)
    requires
        lines < u64::MAX,
    ensures
        told_of(lines, batch, Err(error)) == Some(
            MessageModel::InvalidRecord { line: (lines + 1) as u64, error: error@ },
        ),
        batch_after(batch, Err(error)) == batch,
        batch.len() < 2047 ==> told_of(lines, batch, Ok(event)) is None && batch_after(
            batch,
            Ok(event),
        ) == batch.push(event),
        batch.len() >= 2047 ==> told_of(lines, batch, Ok(event)) == Some(
            MessageModel::Batch(batch.push(event)),
        ) && batch_after(batch, Ok(event)).len() == 0,
{
}

/// Files of logs and of archived logs are known by their names, in any case.
pub proof fn lemma_log_files_by_name(name: &str, stem: Seq<char>, behind: Seq<char>, is_log: bool)
    requires
        call_ensures(is_jsonl_name, (name,), is_log),
    ensures
        lowered(name@) == stem + ".jsonl"@ ==> is_log,
        lowered(name@) == stem + ".jsonl."@ + behind ==> is_log,
        !occurs_in(lowered(name@), ".jsonl"@) ==> !is_log,
{
    reveal_strlit(".jsonl");
    reveal_strlit(".jsonl.");
    let text = lowered(name@);
    if text == stem + ".jsonl"@ {
        assert(text.skip(text.len() - 6) == ".jsonl"@);
    }
    if text == stem + ".jsonl."@ + behind {
        let place = stem.len() as int;
        assert(text.subrange(place, place + 7) == ".jsonl."@);
        assert(crate::text::occurs_at(text, ".jsonl."@, place));
    }
    if is_log {
        if has_suffix(text, ".jsonl"@) {
            let place = text.len() - 6;
            assert(text.subrange(place, place + 6) =~= text.skip(place));
            assert(crate::text::occurs_at(text, ".jsonl"@, place));
        } else {
            let place = choose|place: int| crate::text::occurs_at(text, ".jsonl."@, place);
            assert(text.subrange(place, place + 6) =~= ".jsonl"@) by {
                assert forall|i: int| 0 <= i < 6 implies text[place + i] == ".jsonl"@[i] by {
                    assert(text.subrange(place, place + 7)[i] == ".jsonl."@[i]);
                }
            }
            assert(crate::text::occurs_at(text, ".jsonl"@, place));
        }
    }
}

/// The first load of a file is begun once, and is done as soon as all that the file held then
/// was read.
pub proof fn lemma_first_load_ends_with_the_file(cursor: CursorModel)
    ensures
        cursor.initial_load is Some ==> !starts_load(cursor) && (load_is_done(cursor)
            <==> cursor.offset >= cursor.initial_load->0.file_size_bytes),
        cursor.initial_load is None ==> !load_is_done(cursor) && (starts_load(cursor)
            <==> !cursor.initial_load_completed),
{
}

}
