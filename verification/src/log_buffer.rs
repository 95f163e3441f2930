//! The application log kept for the debugging panel: a ring of the most
//! recent entries, which log events are kept, and how an event's fields
//! become its message.
use vstd::prelude::*;
use vstd::string::*;
use std::collections::VecDeque;
use crate::text::str_eq;

verus! {

/// One log entry.
#[derive(Debug, Clone)]
pub struct LogEntry {
    pub timestamp: String,
    pub level: String,
    pub target: String,
    pub message: String,
}

/// Mathematical view of a [`LogEntry`].
pub struct LogEntryView {
    pub timestamp: Seq<char>,
    pub level: Seq<char>,
    pub target: Seq<char>,
    pub message: Seq<char>,
}

impl View for LogEntry {
    type V = LogEntryView;

    open spec fn view(&self) -> LogEntryView {
        LogEntryView {
            timestamp: self.timestamp@,
            level: self.level@,
            target: self.target@,
            message: self.message@,
        }
    }
}

/// How many entries the log keeps.
pub const MAX_LOG_ENTRIES: usize = 2000;

/// The last `n` of `s`, or all of `s` when it is not longer.
pub open spec fn keep_last<T>(s: Seq<T>, n: nat) -> Seq<T> {
    if s.len() > n {
        s.skip(s.len() - n)
    } else {
        s
    }
}

/// The most recent log entries, oldest first, at most [`MAX_LOG_ENTRIES`].
pub struct LogBuffer {
    entries: VecDeque<LogEntry>,
}

impl LogBuffer {
    pub closed spec fn entries(&self) -> Seq<LogEntryView> {
        self.entries@.map_values(|e: LogEntry| e@)
    }

    pub fn new() -> (b: LogBuffer)
        ensures
            b.entries() == Seq::<LogEntryView>::empty(),
    {
        let b = LogBuffer { entries: VecDeque::new() };
        assert(b.entries() =~= Seq::<LogEntryView>::empty());
        b
    }
}

fn copy_entry(e: &LogEntry) -> (r: LogEntry)
    ensures
        r@ == e@,
{
    LogEntry {
        timestamp: e.timestamp.clone(),
        level: e.level.clone(),
        target: e.target.clone(),
        message: e.message.clone(),
    }
}

/// Adds an entry; the oldest one leaves when the log is full.
pub fn push_entry(buf: &mut LogBuffer, entry: LogEntry)
    requires
        old(buf).entries().len() <= MAX_LOG_ENTRIES,
    ensures
        final(buf).entries() == keep_last(old(buf).entries().push(entry@), MAX_LOG_ENTRIES as nat),
        final(buf).entries().len() <= MAX_LOG_ENTRIES,
{
    let ghost before = buf.entries();
    let ghost e = entry@;
    if buf.entries.len() >= MAX_LOG_ENTRIES {
        let ghost raw = buf.entries@;
        buf.entries.pop_front();
        assert(buf.entries@.map_values(|x: LogEntry| x@) =~= before.skip(1));
    }
    let ghost mid = buf.entries();
    buf.entries.push_back(entry);
    assert(buf.entries() =~= mid.push(e));
    assert(buf.entries() =~= keep_last(before.push(e), MAX_LOG_ENTRIES as nat));
}

/// Copies of all entries, oldest first.
pub fn get_all_logs(buf: &LogBuffer) -> (r: Vec<LogEntry>)
    ensures
        r@.map_values(|e: LogEntry| e@) == buf.entries(),
{
    let n = buf.entries.len();
    let mut r: Vec<LogEntry> = Vec::new();
    let mut i: usize = 0;
    while i < n
        invariant
            n == buf.entries@.len(),
            i <= n,
            r@.len() == i,
            forall|k: int| 0 <= k < i ==> (#[trigger] r@[k])@ == buf.entries@[k]@,
        decreases n - i,
    {
        r.push(copy_entry(&buf.entries[i]));
        i = i + 1;
    }
    assert(r@.map_values(|e: LogEntry| e@) =~= buf.entries());
    r
}

/// Empties the log.
pub fn clear_logs(buf: &mut LogBuffer)
    ensures
        final(buf).entries() == Seq::<LogEntryView>::empty(),
{
    buf.entries.clear();
    assert(buf.entries() =~= Seq::<LogEntryView>::empty());
}

/// Pushing onto the kept entries keeps what pushing onto all entries ever
/// pushed would keep: the log always holds the latest entries, at most `n`.
pub proof fn law_log_keeps_latest(all: Seq<LogEntryView>, e: LogEntryView, n: nat)
    requires
        n > 0,
    ensures
        keep_last(keep_last(all, n).push(e), n) == keep_last(all.push(e), n),
        keep_last(all.push(e), n).len() <= n,
        keep_last(all.push(e), n).last() == e,
{
    let k = keep_last(all, n);
    if all.len() > n {
        assert(k.push(e).skip(1) =~= all.push(e).skip(all.push(e).len() - n));
    } else if all.len() == n {
        assert(k.push(e).skip(1) =~= all.push(e).skip(1));
    } else {
        assert(k =~= all);
    }
}

/// What the log holds after the entries `es` are pushed, in order, onto a
/// log that holds `start`, keeping at most `n`.
pub open spec fn after_pushes(start: Seq<LogEntryView>, es: Seq<LogEntryView>, n: nat) -> Seq<
    LogEntryView,
>
    decreases es.len(),
{
    if es.len() == 0 {
        start
    } else {
        after_pushes(keep_last(start.push(es[0]), n), es.drop_first(), n)
    }
}

proof fn lemma_after_pushes(prefix: Seq<LogEntryView>, es: Seq<LogEntryView>, n: nat)
    requires
        n > 0,
    ensures
        after_pushes(keep_last(prefix, n), es, n) == keep_last(prefix + es, n),
    decreases es.len(),
{
    if es.len() == 0 {
        assert(prefix + es =~= prefix);
        if prefix.len() > n {
            assert(keep_last(prefix, n).len() == n);
        }
    } else {
        law_log_keeps_latest(prefix, es[0], n);
        lemma_after_pushes(prefix.push(es[0]), es.drop_first(), n);
        assert(prefix.push(es[0]) + es.drop_first() =~= prefix + es);
    }
}

/// The log's history: after it is cleared (or made), pushing the entries
/// `es` one by one leaves the newest `min(|es|, n)` of them, in the order
/// they were pushed.
pub proof fn law_log_history(es: Seq<LogEntryView>, n: nat)
    requires
        n > 0,
    ensures
        after_pushes(Seq::empty(), es, n) == keep_last(es, n),
        after_pushes(Seq::empty(), es, n).len() == if es.len() < n {
            es.len()
        } else {
            n
        },
        forall|j: int|
            0 <= j < after_pushes(Seq::empty(), es, n).len() ==> #[trigger] after_pushes(
                Seq::empty(),
                es,
                n,
            )[j] == es[es.len() - after_pushes(Seq::empty(), es, n).len() + j],
{
    let e0 = Seq::<LogEntryView>::empty();
    assert(keep_last(e0, n) == e0);
    lemma_after_pushes(e0, es, n);
    assert(e0 + es =~= es);
}

/// How the debugging panel shows an entry: `[time] [LEVEL] target: message`.
pub open spec fn spec_log_line(e: LogEntryView) -> Seq<char> {
    "["@ + e.timestamp + "] ["@ + e.level + "] "@ + e.target + ": "@ + e.message
}

pub fn log_line(e: &LogEntry) -> (r: String)
    ensures
        r@ == spec_log_line(e@),
{
    let mut s = String::from_str("[");
    s.append(e.timestamp.as_str());
    s.append("] [");
    s.append(e.level.as_str());
    s.append("] ");
    s.append(e.target.as_str());
    s.append(": ");
    s.append(e.message.as_str());
    s
}

// ---------------------------------------------------------------------------
// Which events are kept
// ---------------------------------------------------------------------------
/// The severity of a log event.
#[derive(Debug, Clone, Copy, PartialEq, Eq, Structural)]
pub enum LogLevel {
    Trace,
    Debug,
    Info,
    Warn,
    Error,
}

/// The name of a level, as entries show it.
pub open spec fn spec_level_name(l: LogLevel) -> Seq<char> {
    match l {
        LogLevel::Trace => "TRACE"@,
        LogLevel::Debug => "DEBUG"@,
        LogLevel::Info => "INFO"@,
        LogLevel::Warn => "WARN"@,
        LogLevel::Error => "ERROR"@,
    }
}

pub fn level_name(l: LogLevel) -> (r: &'static str)
    ensures
        r@ == spec_level_name(l),
{
    match l {
        LogLevel::Trace => "TRACE",
        LogLevel::Debug => "DEBUG",
        LogLevel::Info => "INFO",
        LogLevel::Warn => "WARN",
        LogLevel::Error => "ERROR",
    }
}

/// Events of these targets are kept at every level, for diagnosing
/// connections.
pub open spec fn diagnostic_prefix() -> Seq<char> {
    "gut_loader_lib::database"@
}

/// Whether an event is kept: INFO, WARN and ERROR always; DEBUG and TRACE
/// only from the database targets.
pub open spec fn spec_captures(level: LogLevel, target: Seq<char>) -> bool {
    !(level is Trace || level is Debug) || target.take(diagnostic_prefix().len() as int)
        == diagnostic_prefix() && target.len() >= diagnostic_prefix().len()
}

/// The log layer: it keeps the events that [`BufferLayer::captures`] admits.
pub struct BufferLayer;

impl BufferLayer {
    pub fn captures(&self, level: LogLevel, target: &str) -> (r: bool)
        ensures
            r == spec_captures(level, target@),
    {
        match level {
            LogLevel::Trace | LogLevel::Debug => {
                let p = "gut_loader_lib::database";
                let n = p.unicode_len();
                if target.unicode_len() < n {
                    false
                } else {
                    let head = target.substring_char(0, n);
                    str_eq(head, p)
                }
            },
            _ => true,
        }
    }
}

// ---------------------------------------------------------------------------
// Messages
// ---------------------------------------------------------------------------
/// The message after recording the field `field` with the rendered value
/// `value`: the `message` field replaces it, other fields are appended as
/// `name=value`, separated by a space.
pub open spec fn spec_visit_field(current: Seq<char>, field: Seq<char>, value: Seq<char>) -> Seq<
    char,
> {
    if field == "message"@ {
        value
    } else if current.len() == 0 {
        field + "="@ + value
    } else {
        current + " "@ + field + "="@ + value
    }
}

pub fn visit_field(current: &str, field: &str, value: &str) -> (r: String)
    ensures
        r@ == spec_visit_field(current@, field@, value@),
{
    if str_eq(field, "message") {
        String::from_str(value)
    } else if current.unicode_len() == 0 {
        let mut s = String::from_str(field);
        s.append("=");
        s.append(value);
        s
    } else {
        let mut s = String::from_str(current);
        s.append(" ");
        s.append(field);
        s.append("=");
        s.append(value);
        s
    }
}

} // verus!
