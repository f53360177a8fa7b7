//! Access-log entries and the following of a log file.

use crate::clock::{parse_rfc3339, rfc3339_time, Timestamp};
use crate::text::{
    chars_of, is_white, law_first_occurrence_is_replaced, law_nothing_is_replaced, law_stripped,
    occurs_at, optional_text, parse_u64, parsed_u64, replace, replaced, strip, text_of, trimmed,
    Strip,
};
use vstd::prelude::*;
use vstd::string::*;

verus! {

// ---------------------------------------------------------------------------------------------
// Entries
// ---------------------------------------------------------------------------------------------

/// One request.
#[derive(Clone, Debug)]
pub struct LogEntry {
    pub source_ip: String,
    pub timestamp: Timestamp,
    pub method: String,
    pub path: String,
    pub status: u16,
    pub response_size: u64,
}

/// A value of a JSON field that should hold a number.
#[derive(Clone, Debug)]
pub enum RawValue {
    /// A number; its value, where that is an unsigned 64-bit one.
    Number(Option<u64>),
    /// A string.
    Text(String),
    /// Anything else.
    Other,
}

/// The fields of a log line, where they are given.
#[derive(Clone, Debug)]
pub struct RawLogEntry {
    pub source_ip: Option<String>,
    pub timestamp: Option<String>,
    pub method: Option<String>,
    pub path: Option<String>,
    pub status: Option<RawValue>,
    pub response_size: Option<RawValue>,
}

/// The point of time that a text denotes; `now` where it denotes none. A `Z` is read as the
/// offset zero.
pub open spec fn time_of(raw: Seq<char>, now: Timestamp) -> Timestamp {
    if trimmed(raw).len() == 0 {
        now
    } else {
        match rfc3339_time(replaced(raw, "Z"@, "+00:00"@)) {
            Some((seconds, nanos)) => Timestamp { seconds, nanos },
            None => now,
        }
    }
}

/// The number that a field holds, as a number or as text.
pub open spec fn number_of(value: Option<RawValue>) -> Option<u64> {
    match value {
        Some(RawValue::Number(number)) => number,
        Some(RawValue::Text(text)) => parsed_u64(text@),
        Some(RawValue::Other) => None,
        None => None,
    }
}

/// The status that a field holds; zero where it holds none that fits.
pub open spec fn status_of(value: Option<RawValue>) -> u16 {
    match number_of(value) {
        Some(number) => if number <= u16::MAX {
            number as u16
        } else {
            0
        },
        None => 0,
    }
}

/// The text of a field, or its default.
pub open spec fn text_or(field: Option<String>, default: Seq<char>) -> Seq<char> {
    match field {
        Some(text) => text@,
        None => default,
    }
}

/// The entry that the fields of a line make, at `now`.
pub open spec fn is_entry_of(entry: LogEntry, raw: RawLogEntry, now: Timestamp) -> bool {
    &&& entry.source_ip@ == text_or(raw.source_ip, "unknown"@)
    &&& entry.timestamp == match raw.timestamp {
        Some(text) => time_of(text@, now),
        None => now,
    }
    &&& entry.method@ == text_or(raw.method, "GET"@)
    &&& entry.path@ == text_or(raw.path, "/"@)
    &&& entry.status == status_of(raw.status)
    &&& entry.response_size == match number_of(raw.response_size) {
        Some(number) => number,
        None => 0,
    }
}

/// Reads a point of time; `now` stands in for one that cannot be read.
pub fn parse_timestamp(raw_timestamp: &str, now: Timestamp) -> (time: Timestamp)
    requires
        now.is_valid(),
    ensures
        time == time_of(raw_timestamp@, now),
        time.is_valid(),
{
    let chars = chars_of(raw_timestamp);
    if strip(chars.as_slice(), Strip::White).len() == 0 {
        return now;
    }
    proof {
        reveal_strlit("Z");
    }
    let text = replace(raw_timestamp, "Z", "+00:00");
    match parse_rfc3339(text.as_str()) {
        Some(time) => time,
        None => now,
    }
}

/// The part of a line that holds the entry; none where the line is blank.
pub fn line_body(line: &str) -> (body: Option<String>)
    ensures
        optional_text(body) == if trimmed(line@).len() == 0 {
            None
        } else {
            Some(trimmed(line@))
        },
{
    let chars = chars_of(line);
    let body = strip(chars.as_slice(), Strip::White);
    if body.len() == 0 {
        None
    } else {
        Some(text_of(body))
    }
}

/// The entry of a line, given the fields that were read from its body, if they could be read.
pub fn parse_log_line(fields: Option<RawLogEntry>, now: Timestamp) -> (entry: Option<LogEntry>)
    requires
        now.is_valid(),
    ensures
        entry is Some == fields is Some,
        entry matches Some(entry) ==> is_entry_of(entry, fields->0, now)
            && entry.timestamp.is_valid(),
{
    let raw = match fields {
        Some(raw) => raw,
        None => {
            return None;
        },
    };
    let timestamp = match &raw.timestamp {
        Some(text) => parse_timestamp(text.as_str(), now),
        None => now,
    };
    let status = match value_to_u64(&raw.status) {
        Some(number) => if number <= 65_535 {
            number as u16
        } else {
            0
        },
        None => 0,
    };
    let response_size = match value_to_u64(&raw.response_size) {
        Some(number) => number,
        None => 0,
    };
    Some(
        LogEntry {
            source_ip: or_default(raw.source_ip, "unknown"),
            timestamp,
            method: or_default(raw.method, "GET"),
            path: or_default(raw.path, "/"),
            status,
            response_size,
        },
    )
}

fn or_default(field: Option<String>, default: &str) -> (text: String)
    ensures
        text@ == text_or(field, default@),
{
    match field {
        Some(text) => text,
        None => default.to_owned(),
    }
}

/// The number that a field holds.
pub fn value_to_u64(value: &Option<RawValue>) -> (number: Option<u64>)
    ensures
        number == number_of(*value),
{
    match value {
        Some(RawValue::Number(number)) => *number,
        Some(RawValue::Text(text)) => {
            let chars = chars_of(text.as_str());
            parse_u64(chars.as_slice())
        },
        Some(RawValue::Other) => None,
        None => None,
    }
}

// ---------------------------------------------------------------------------------------------
// Following a file
// ---------------------------------------------------------------------------------------------

/// What tells one file from another.
#[derive(Clone, Copy, Debug, PartialEq, Eq, Structural)]
pub struct FileMarker {
    pub dev: u64,
    pub ino: u64,
}

/// A file as it is found at a path.
#[derive(Clone, Copy, Debug, PartialEq, Eq, Structural)]
pub struct FileState {
    pub marker: FileMarker,
    pub len: u64,
}

/// Whether the file at the path is another one than the file that is read, or has been truncated
/// below the place up to which it was read.
pub open spec fn is_replaced(marker: FileMarker, position: u64, current: FileState) -> bool {
    current.marker != marker || current.len < position
}

/// Whether the file has to be opened again.
pub fn should_reopen(marker: FileMarker, position: u64, current: FileState) -> (reopen: bool)
    ensures
        reopen == is_replaced(marker, position, current),
{
    current.marker != marker || current.len < position
}

/// The file that is read: which one it is, and how long the first file of this reading was when
/// it was opened.
#[derive(Clone, Copy, Debug, PartialEq, Eq, Structural)]
pub struct Tail {
    pub marker: FileMarker,
    pub opened_len: u64,
}

/// What was found at the path while no file is read.
#[derive(Clone, Copy, Debug, PartialEq, Eq, Structural)]
pub enum ProbeEvent {
    /// Nothing.
    Missing,
    /// A directory.
    Directory,
    /// A file that could not be opened or examined.
    OpenFailed,
    /// A file, which is open now.
    Opened(FileState),
}

/// What came of reading on.
#[derive(Clone, Copy, Debug, PartialEq, Eq, Structural)]
pub enum ReadEvent {
    /// A line.
    Line,
    /// The end of the file: the place up to which it was read, where that is known, and the file
    /// at the path, where it could be examined.
    End(Option<u64>, Option<FileState>),
    /// A failure.
    Failed,
}

/// What came of opening the file again.
#[derive(Clone, Copy, Debug, PartialEq, Eq, Structural)]
pub enum ReopenEvent {
    /// It could not be opened or examined.
    Failed,
    /// It is open.
    Opened(FileState),
}

/// What to do next.
#[derive(Clone, Copy, Debug, PartialEq, Eq, Structural)]
pub enum FollowStep {
    /// Look at the path again at once.
    Probe,
    /// Wait, then look at the path again.
    WaitAndProbe,
    /// Report that the path is a directory, wait, then look at the path again.
    ReportDirectory,
    /// Read on from the end of the file that was opened.
    ReadFromEnd(Tail),
    /// Handle the line, then read on.
    Deliver(Tail),
    /// Wait, then read on.
    WaitAndRead(Tail),
    /// Open the file at the path again.
    Reopen(Tail),
    /// Read on from the start of the file that was opened.
    ReadFromStart(Tail),
}

/// The step after looking at the path: only an open file ends the waiting, and what it holds
/// already is skipped.
pub fn after_probe(event: ProbeEvent) -> (step: FollowStep)
    ensures
        step == match event {
            ProbeEvent::Missing => FollowStep::WaitAndProbe,
            ProbeEvent::Directory => FollowStep::ReportDirectory,
            ProbeEvent::OpenFailed => FollowStep::WaitAndProbe,
            ProbeEvent::Opened(file) => FollowStep::ReadFromEnd(
                Tail { marker: file.marker, opened_len: file.len },
            ),
        },
{
    match event {
        ProbeEvent::Missing => FollowStep::WaitAndProbe,
        ProbeEvent::Directory => FollowStep::ReportDirectory,
        ProbeEvent::OpenFailed => FollowStep::WaitAndProbe,
        ProbeEvent::Opened(file) => FollowStep::ReadFromEnd(
            Tail { marker: file.marker, opened_len: file.len },
        ),
    }
}

impl Tail {
    /// The step that an event of reading leads to.
    pub open spec fn read_step(self, event: ReadEvent) -> FollowStep {
        match event {
            ReadEvent::Line => FollowStep::Deliver(self),
            ReadEvent::Failed => FollowStep::Probe,
            ReadEvent::End(_, None) => FollowStep::Probe,
            ReadEvent::End(position, Some(current)) => {
                let reached = match position {
                    Some(position) => position,
                    None => self.opened_len,
                };
                if is_replaced(self.marker, reached, current) {
                    FollowStep::Reopen(self)
                } else {
                    FollowStep::WaitAndRead(self)
                }
            },
        }
    }

    /// The step after reading on. At the end of the file, a file that took its place or was
    /// truncated is opened again; where the path cannot be examined, the file is given up.
    pub fn after_read(self, event: ReadEvent) -> (step: FollowStep)
        ensures
            step == self.read_step(event),
    {
        match event {
            ReadEvent::Line => FollowStep::Deliver(self),
            ReadEvent::Failed => FollowStep::Probe,
            ReadEvent::End(position, found) => match found {
                None => FollowStep::Probe,
                Some(current) => {
                    let reached = match position {
                        Some(position) => position,
                        None => self.opened_len,
                    };
                    if should_reopen(self.marker, reached, current) {
                        FollowStep::Reopen(self)
                    } else {
                        FollowStep::WaitAndRead(self)
                    }
                },
            },
        }
    }

    /// The step after opening the file again: it is read from its start.
    pub fn after_reopen(self, event: ReopenEvent) -> (step: FollowStep)
        ensures
            step == match event {
                ReopenEvent::Failed => FollowStep::Probe,
                ReopenEvent::Opened(file) => FollowStep::ReadFromStart(
                    Tail { marker: file.marker, opened_len: self.opened_len },
                ),
            },
    {
        match event {
            ReopenEvent::Failed => FollowStep::Probe,
            ReopenEvent::Opened(file) => FollowStep::ReadFromStart(
                Tail { marker: file.marker, opened_len: self.opened_len },
            ),
        }
    }
}

/// A file that took the place of the one that is read, or was truncated, is opened again as soon
/// as the end is reached; one that was only appended to is not.
pub proof fn law_reopen_on_rotation(tail: Tail, position: u64, current: FileState)
    ensures
        tail.read_step(ReadEvent::End(Some(position), Some(current))) == FollowStep::Reopen(tail)
            <==> current.marker != tail.marker || current.len < position,
        current.marker == tail.marker && current.len >= position ==> tail.read_step(
            ReadEvent::End(Some(position), Some(current)),
        ) == FollowStep::WaitAndRead(tail),
{
}

/// A `Z` at the end of a time is the same as the offset zero, and a time that cannot be read is
/// that at which it is read.
pub proof fn law_zulu_is_offset_zero(raw: Seq<char>, now: Timestamp)
    requires
        raw.len() > 0,
        !is_white(raw[0]),
        !raw.contains('Z'),
    ensures
        time_of(raw + "Z"@, now) == time_of(raw + "+00:00"@, now),
        match rfc3339_time(raw + "+00:00"@) {
            Some((seconds, nanos)) => time_of(raw + "+00:00"@, now) == (Timestamp {
                seconds,
                nanos,
            }),
            None => time_of(raw + "+00:00"@, now) == now,
        },
        time_of(Seq::empty(), now) == now,
{
    reveal_strlit("Z");
    reveal_strlit("+00:00");
    let zulu = raw + "Z"@;
    let offset = raw + "+00:00"@;
    assert forall|j: int| 0 <= j < raw.len() implies raw[j] != 'Z' by {
        assert(raw.contains(raw[j]));
    }
    assert forall|k: int| 0 <= k < raw.len() implies !#[trigger] occurs_at(
        raw + "Z"@ + Seq::empty(),
        "Z"@,
        k,
    ) by {
        let s = raw + "Z"@ + Seq::empty();
        if occurs_at(s, "Z"@, k) {
            assert(s.subrange(k, k + 1)[0] == "Z"@[0]);
            assert(s[k] == raw[k]);
        }
    }
    law_first_occurrence_is_replaced(raw, "Z"@, "+00:00"@, Seq::empty());
    assert(raw + "Z"@ + Seq::empty() =~= zulu);
    assert(raw + "+00:00"@ + replaced(Seq::empty(), "Z"@, "+00:00"@) =~= offset);
    assert forall|k: int| !#[trigger] occurs_at(offset, "Z"@, k) by {
        if occurs_at(offset, "Z"@, k) {
            assert(offset.subrange(k, k + 1)[0] == "Z"@[0]);
            assert(offset[k] == 'Z');
            if k < raw.len() {
                assert(offset[k] == raw[k]);
            }
        }
    }
    law_nothing_is_replaced(offset, "Z"@, "+00:00"@);
    lemma_not_blank(zulu);
    lemma_not_blank(offset);
}

proof fn lemma_not_blank(s: Seq<char>)
    requires
        s.len() > 0,
        !is_white(s[0]),
    ensures
        trimmed(s).len() > 0,
{
    let start = law_stripped(s, Strip::White);
    if trimmed(s).len() == 0 {
        if start > 0 {
            assert(Strip::White.drops(s[0]));
        } else {
            assert(Strip::White.drops(s[0]));
        }
    }
}

/// A field is a number where it holds one or the text of one, and else counts as zero. A status is
/// one only where it fits in 16 bits. A text that is missing has its default.
pub proof fn law_fields_have_defaults(entry: LogEntry, raw: RawLogEntry, now: Timestamp)
    requires
        is_entry_of(entry, raw, now),
    ensures
        raw.source_ip matches Some(text) ==> entry.source_ip@ == text@,
        raw.source_ip is None ==> entry.source_ip@ == "unknown"@,
        raw.method matches Some(text) ==> entry.method@ == text@,
        raw.method is None ==> entry.method@ == "GET"@,
        raw.path matches Some(text) ==> entry.path@ == text@,
        raw.path is None ==> entry.path@ == "/"@,
        raw.timestamp is None ==> entry.timestamp == now,
        raw.timestamp matches Some(text) ==> entry.timestamp == time_of(text@, now),
        raw.status is None || raw.status == Some(RawValue::Other) || raw.status == Some(
            RawValue::Number(None),
        ) ==> entry.status == 0,
        raw.status matches Some(RawValue::Number(Some(n))) ==> entry.status == if n < 65_536 {
            n as u16
        } else {
            0
        },
        raw.status matches Some(RawValue::Text(text)) ==> entry.status == if parsed_u64(
            text@,
        ) is Some && parsed_u64(text@)->0 < 65_536 {
            parsed_u64(text@)->0 as u16
        } else {
            0
        },
        raw.response_size is None || raw.response_size == Some(RawValue::Other)
            || raw.response_size == Some(RawValue::Number(None)) ==> entry.response_size == 0,
        raw.response_size matches Some(RawValue::Number(Some(n))) ==> entry.response_size == n,
        raw.response_size matches Some(RawValue::Text(text)) ==> entry.response_size
            == if parsed_u64(text@) is Some {
            parsed_u64(text@)->0
        } else {
            0
        },
{
}

/// Following a file goes on after every event: lines are handled, a failure or a path that cannot be
/// examined leads to looking at the path again, and where the place is not known the length at
/// opening stands in for it.
pub proof fn law_reading_goes_on(tail: Tail, position: Option<u64>, current: FileState)
    ensures
        tail.read_step(ReadEvent::Line) == FollowStep::Deliver(tail),
        tail.read_step(ReadEvent::Failed) == FollowStep::Probe,
        tail.read_step(ReadEvent::End(position, None)) == FollowStep::Probe,
        tail.read_step(ReadEvent::End(None, Some(current))) == tail.read_step(
            ReadEvent::End(Some(tail.opened_len), Some(current)),
        ),
{
}

/// A blank time is that at which it is read; any other is what its text says with each `Z` as the
/// offset zero, where that is a time.
pub proof fn law_times(raw: Seq<char>, now: Timestamp)
    ensures
        trimmed(raw).len() == 0 ==> time_of(raw, now) == now,
        trimmed(raw).len() > 0 ==> match rfc3339_time(replaced(raw, "Z"@, "+00:00"@)) {
            Some(read) => time_of(raw, now).seconds == read.0 && time_of(raw, now).nanos == read.1,
            None => time_of(raw, now) == now,
        },
{
}

} // verus!
