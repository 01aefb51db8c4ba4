//! The log buffer: the most recent lines of backend output, oldest first,
//! each tagged as ordinary or error output, and the events that announce
//! them to listeners.

use vstd::prelude::*;

verus! {

/// The number of entries that the buffer keeps.
pub const LOG_CAPACITY: usize = 1000;

/// A log entry as a value: its text, and whether it is error output.
pub type Entry = (Seq<char>, bool);

/// One captured line of output.
#[derive(Clone, Debug)]
pub struct LogEntry {
    pub text: String,
    pub is_error: bool,
}

impl View for LogEntry {
    type V = Entry;

    open spec fn view(&self) -> Entry {
        (self.text@, self.is_error)
    }
}

/// The values of a sequence of log entries.
pub open spec fn entries_of(entries: Seq<LogEntry>) -> Seq<Entry> {
    entries.map_values(|e: LogEntry| e@)
}

/// The channel on which a line is announced.
#[derive(Clone, Copy, Debug, PartialEq, Eq, Structural)]
pub enum Channel {
    Info,
    Error,
}

/// The channel for a line with the given tag.
pub open spec fn channel_of(is_error: bool) -> Channel {
    if is_error {
        Channel::Error
    } else {
        Channel::Info
    }
}

/// The name under which a channel's events go out.
pub open spec fn channel_name(channel: Channel) -> Seq<char> {
    match channel {
        Channel::Info => "python-log"@,
        Channel::Error => "python-error"@,
    }
}

impl Channel {
    /// The name under which this channel's events go out.
    pub fn name(self) -> (out: &'static str)
        ensures
            out@ == channel_name(self),
    {
        match self {
            Channel::Info => "python-log",
            Channel::Error => "python-error",
        }
    }
}

/// An announcement of one line: the channel it goes out on and the line.
#[derive(Clone, Debug)]
pub struct Event {
    pub channel: Channel,
    pub payload: String,
}

impl View for Event {
    type V = (Channel, Seq<char>);

    open spec fn view(&self) -> (Channel, Seq<char>) {
        (self.channel, self.payload@)
    }
}

/// The announcement of a log entry.
pub open spec fn event_of(entry: Entry) -> (Channel, Seq<char>) {
    (channel_of(entry.1), entry.0)
}

/// The buffer's contents after one more entry came in: the entry stands at
/// the end, and the oldest entry has left if the buffer was full.
pub open spec fn recorded(entries: Seq<Entry>, entry: Entry) -> Seq<Entry> {
    let all = entries.push(entry);
    if all.len() > LOG_CAPACITY {
        all.skip(1)
    } else {
        all
    }
}

/// The buffer's contents after the entries of `more` came in, one by one.
pub open spec fn recorded_all(entries: Seq<Entry>, more: Seq<Entry>) -> Seq<Entry>
    decreases more.len(),
{
    if more.len() == 0 {
        entries
    } else {
        recorded(recorded_all(entries, more.drop_last()), more.last())
    }
}

/// The last `n` items of `s`, or all of `s` where it has no more than `n`.
pub open spec fn last_of(s: Seq<Entry>, n: nat) -> Seq<Entry> {
    if s.len() <= n {
        s
    } else {
        s.skip(s.len() - n)
    }
}

/// A buffer that was within its capacity holds, after any number of entries
/// came in, the most recent entries up to its capacity, in the order in
/// which they came: all that it held and all that came in where they fit,
/// and else the last `LOG_CAPACITY` of them.
pub proof fn lemma_recorded_all_keeps_latest(entries: Seq<Entry>, more: Seq<Entry>)
    requires
        entries.len() <= LOG_CAPACITY,
    ensures
        recorded_all(entries, more) == last_of(entries + more, LOG_CAPACITY as nat),
        recorded_all(entries, more).len() <= LOG_CAPACITY,
    decreases more.len(),
{
    if more.len() > 0 {
        let front = more.drop_last();
        lemma_recorded_all_keeps_latest(entries, front);
    }
}

/// After more than `LOG_CAPACITY` entries came into an empty buffer, it holds
/// exactly the last `LOG_CAPACITY` of them, in the order in which they came.
pub proof fn lemma_overflow_keeps_latest(more: Seq<Entry>)
    requires
        more.len() > LOG_CAPACITY,
    ensures
        recorded_all(Seq::empty(), more).len() == LOG_CAPACITY,
        recorded_all(Seq::empty(), more) == more.skip(more.len() - LOG_CAPACITY),
{
    lemma_recorded_all_keeps_latest(Seq::empty(), more);
}

/// The recent log entries, oldest first, never more than `LOG_CAPACITY`.
pub struct LogBuffer {
    entries: Vec<LogEntry>,
}

impl View for LogBuffer {
    type V = Seq<Entry>;

    closed spec fn view(&self) -> Seq<Entry> {
        entries_of(self.entries@)
    }
}

impl LogBuffer {
    #[verifier::type_invariant]
    spec fn within_capacity(&self) -> bool {
        self.entries@.len() <= LOG_CAPACITY
    }

    /// An empty buffer.
    pub fn new() -> (out: Self)
        ensures
            out@ == Seq::<Entry>::empty(),
    {
        let out = LogBuffer { entries: Vec::new() };
        out
    }

    /// The number of entries held, which never exceeds the capacity.
    pub fn len(&self) -> (n: usize)
        ensures
            n == self@.len(),
            n <= LOG_CAPACITY,
    {
        proof {
            use_type_invariant(self);
        }
        self.entries.len()
    }

    /// Takes in one line. It goes to the end of the buffer, and the oldest
    /// entry leaves if the buffer was full. The result is the announcement of
    /// the line, for the caller to publish.
    pub fn record(&mut self, text: String, is_error: bool) -> (event: Event)
        ensures
            final(self)@ == recorded(old(self)@, (text@, is_error)),
            event@ == event_of((text@, is_error)),
    {
        proof {
            use_type_invariant(&*self);
        }
        let event = Event { channel: channel_for(is_error), payload: text.clone() };
        let mut entries: Vec<LogEntry> = Vec::new();
        std::mem::swap(&mut entries, &mut self.entries);
        entries.push(LogEntry { text, is_error });
        if entries.len() > LOG_CAPACITY {
            entries.remove(0);
        }
        proof {
            let next = LogBuffer { entries };
        }
        self.entries = entries;
        event
    }

    /// A copy of the entries, oldest first.
    pub fn snapshot(&self) -> (out: Vec<LogEntry>)
        ensures
            entries_of(out@) == self@,
            out@.len() <= LOG_CAPACITY,
    {
        proof {
            use_type_invariant(self);
        }
        let mut out: Vec<LogEntry> = Vec::new();
        let mut i: usize = 0;
        while i < self.entries.len()
            invariant
                i <= self.entries@.len(),
                out@.len() == i,
                entries_of(out@) == self@.take(i as int),
            decreases self.entries@.len() - i,
        {
            let entry = &self.entries[i];
            let ghost before = out@;
            out.push(LogEntry { text: entry.text.clone(), is_error: entry.is_error });
            assert forall|k: int| 0 <= k < i + 1 implies entries_of(out@)[k] == self@[k] by {
                if k < i {
                    assert(entries_of(before)[k] == self@.take(i as int)[k]);
                }
            }
            i = i + 1;
        }
        out
    }
}

/// The channel for a line with the given tag.
pub fn channel_for(is_error: bool) -> (out: Channel)
    ensures
        out == channel_of(is_error),
{
    if is_error {
        Channel::Error
    } else {
        Channel::Info
    }
}

} // verus!
