//! The supervisor of the backend process: what it knows (the running
//! process, if any, and the log) and what it decides at each step of the
//! backend's life. The caller does the outside work (probing the disk,
//! starting and ending the process, reading its output, publishing events)
//! and reports what came of it.

use vstd::prelude::*;
use crate::log_buffer::{
    entries_of, event_of, recorded, recorded_all, lemma_recorded_all_keeps_latest, Channel,
    Entry, Event, LogBuffer, LogEntry, LOG_CAPACITY,
};
use crate::text::{decimal, push_decimal};

verus! {

/// The running backend process.
#[derive(Clone, Copy, Debug, PartialEq, Eq, Structural)]
pub struct ProcessHandle {
    pub pid: u32,
}

/// The output stream that a line came from.
#[derive(Clone, Copy, Debug, PartialEq, Eq, Structural)]
pub enum Stream {
    Stdout,
    Stderr,
}

/// A lifecycle signal of the host application.
#[derive(Clone, Copy, Debug, PartialEq, Eq, Structural)]
pub enum HostSignal {
    ExitRequested,
    Exit,
    Other,
}

/// What the supervisor knows, as a value.
pub struct SupervisorState {
    pub process: Option<ProcessHandle>,
    pub log: Seq<Entry>,
}

/// The values of a sequence of events.
pub open spec fn events_of(events: Seq<Event>) -> Seq<(Channel, Seq<char>)> {
    events.map_values(|e: Event| e@)
}

/// The line that announces where the backend is started from. `shown` is the
/// path as it is to be displayed.
pub open spec fn starting_message(shown: Seq<char>) -> Seq<char> {
    "Starting Python backend from: "@ + shown
}

/// The line that reports that no backend executable was found.
pub open spec fn not_found_message(shown: Seq<char>) -> Seq<char> {
    "Python backend not found at: "@ + shown
}

/// The line that announces the started process.
pub open spec fn started_message(pid: u32) -> Seq<char> {
    "Python backend started with PID: "@ + decimal(pid as nat)
}

/// The entries that a start attempt logs: the announcement, and the error
/// report where the executable does not exist.
pub open spec fn start_entries(shown: Seq<char>, exists: bool) -> Seq<Entry> {
    if exists {
        seq![(starting_message(shown), false)]
    } else {
        seq![(starting_message(shown), false), (not_found_message(shown), true)]
    }
}

/// The state after a start attempt was announced.
pub open spec fn start_announced(s: SupervisorState, shown: Seq<char>, exists: bool)
    -> SupervisorState {
    SupervisorState { process: s.process, log: recorded_all(s.log, start_entries(shown, exists)) }
}

/// The state after the backend process was started.
pub open spec fn process_started(s: SupervisorState, pid: u32) -> SupervisorState {
    SupervisorState {
        process: Some(ProcessHandle { pid }),
        log: recorded(s.log, (started_message(pid), false)),
    }
}

/// The log entry for a line of output: lines of standard error are error
/// entries.
pub open spec fn output_entry(stream: Stream, text: Seq<char>) -> Entry {
    (text, stream == Stream::Stderr)
}

/// The state after a line of output was read.
pub open spec fn line_read(s: SupervisorState, stream: Stream, text: Seq<char>)
    -> SupervisorState {
    SupervisorState { process: s.process, log: recorded(s.log, output_entry(stream, text)) }
}

/// The state after a stop: no process is held, and the log is as before.
pub open spec fn stopped(s: SupervisorState) -> SupervisorState {
    SupervisorState { process: None, log: s.log }
}

/// Whether a signal of the host ends the backend.
pub open spec fn ends_backend(signal: HostSignal) -> bool {
    signal == HostSignal::ExitRequested || signal == HostSignal::Exit
}

/// What a start attempt asks of the caller.
pub struct StartPlan {
    /// Whether the executable is to be started.
    pub launch: bool,
    /// The events to publish, in order.
    pub events: Vec<Event>,
}

/// The supervisor: the handle of the running backend process, if any, and
/// the log of its output.
pub struct Supervisor {
    process: Option<ProcessHandle>,
    log: LogBuffer,
}

impl View for Supervisor {
    type V = SupervisorState;

    closed spec fn view(&self) -> SupervisorState {
        SupervisorState { process: self.process, log: self.log@ }
    }
}

impl Supervisor {
    /// A supervisor with no process and an empty log.
    pub fn new() -> (out: Self)
        ensures
            out@.process.is_none(),
            out@.log == Seq::<Entry>::empty(),
    {
        Supervisor { process: None, log: LogBuffer::new() }
    }

    /// The handle of the running process, if there is one.
    pub fn process(&self) -> (out: Option<ProcessHandle>)
        ensures
            out == self@.process,
    {
        self.process
    }

    /// A copy of the log, oldest entry first.
    pub fn get_logs(&self) -> (out: Vec<LogEntry>)
        ensures
            entries_of(out@) == self@.log,
            out@.len() <= LOG_CAPACITY,
    {
        self.log.snapshot()
    }

    /// Begins a start attempt for the executable that was located. `shown` is
    /// its path as it is to be displayed, `exists` whether it is on disk. The
    /// attempt is announced in the log; a missing executable is reported as
    /// an error and is not to be started. The process held is unchanged.
    pub fn begin_start(&mut self, shown: &str, exists: bool) -> (plan: StartPlan)
        ensures
            final(self)@ == start_announced(old(self)@, shown@, exists),
            plan.launch == exists,
            events_of(plan.events@) == start_entries(shown@, exists).map_values(
                |e: Entry| event_of(e),
            ),
    {
        let mut events: Vec<Event> = Vec::new();
        let mut starting = "Starting Python backend from: ".to_owned();
        starting.append(shown);
        events.push(self.log.record(starting, false));
        proof {
            reveal_with_fuel(recorded_all, 3);
        }
        if !exists {
            let mut missing = "Python backend not found at: ".to_owned();
            missing.append(shown);
            events.push(self.log.record(missing, true));
        }
        StartPlan { launch: exists, events }
    }

    /// Takes note of the started process and announces it in the log.
    pub fn process_started(&mut self, pid: u32) -> (event: Event)
        ensures
            final(self)@ == process_started(old(self)@, pid),
            event@ == (Channel::Info, started_message(pid)),
    {
        let mut text = "Python backend started with PID: ".to_owned();
        push_decimal(&mut text, pid);
        self.process = Some(ProcessHandle { pid });
        self.log.record(text, false)
    }

    /// Takes in what a read from one of the output streams gave. A line goes
    /// into the log and is announced; a failed read leaves everything as it
    /// was.
    pub fn output_read(&mut self, stream: Stream, read: Option<String>) -> (event: Option<Event>)
        ensures
            match read {
                Some(text) => {
                    &&& final(self)@ == line_read(old(self)@, stream, text@)
                    &&& event.is_some()
                    &&& event.unwrap()@ == event_of(output_entry(stream, text@))
                },
                None => final(self)@ == old(self)@ && event.is_none(),
            },
    {
        match read {
            Some(text) => {
                let is_error = match stream {
                    Stream::Stdout => false,
                    Stream::Stderr => true,
                };
                Some(self.log.record(text, is_error))
            },
            None => None,
        }
    }

    /// Lets go of the process. The result is the process that the caller has
    /// to end and wait for, if one was held; afterwards none is held.
    pub fn stop(&mut self) -> (out: Option<ProcessHandle>)
        ensures
            out == old(self)@.process,
            final(self)@ == stopped(old(self)@),
    {
        let out = self.process;
        self.process = None;
        out
    }

    /// Reacts to a lifecycle signal of the host: a request to exit and the
    /// exit itself both stop the backend, any other signal changes nothing.
    pub fn on_signal(&mut self, signal: HostSignal) -> (out: Option<ProcessHandle>)
        ensures
            ends_backend(signal) ==> out == old(self)@.process && final(self)@ == stopped(
                old(self)@,
            ),
            !ends_backend(signal) ==> out.is_none() && final(self)@ == old(self)@,
    {
        match signal {
            HostSignal::ExitRequested => self.stop(),
            HostSignal::Exit => self.stop(),
            HostSignal::Other => None,
        }
    }
}

/// A second stop right after a stop finds no process to end and changes
/// nothing.
pub proof fn lemma_stop_twice(s: SupervisorState)
    ensures
        stopped(s).process.is_none(),
        stopped(stopped(s)) == stopped(s),
{
}

/// One line of output as it reaches the supervisor: its stream and its text.
pub type Output = (Stream, Seq<char>);

/// The log entries for a run of output lines, in the order of the lines.
pub open spec fn output_entries(outputs: Seq<Output>) -> Seq<Entry> {
    outputs.map_values(|o: Output| output_entry(o.0, o.1))
}

/// The test for the lines of `stream`.
pub open spec fn is_from(stream: Stream) -> spec_fn(Output) -> bool {
    |o: Output| o.0 == stream
}

/// The test for the entries with the given tag.
pub open spec fn has_tag(is_error: bool) -> spec_fn(Entry) -> bool {
    |e: Entry| e.1 == is_error
}

/// The texts of the lines that `stream` gave, in their order.
pub open spec fn lines_from(outputs: Seq<Output>, stream: Stream) -> Seq<Seq<char>> {
    outputs.filter(is_from(stream)).map_values(|o: Output| o.1)
}

/// The texts of the entries with the given tag, in their order.
pub open spec fn texts_tagged(entries: Seq<Entry>, is_error: bool) -> Seq<Seq<char>> {
    entries.filter(has_tag(is_error)).map_values(|e: Entry| e.0)
}

/// Among the entries for a run of output lines, those with the tag of a
/// stream are the lines of that stream, in their order.
pub proof fn lemma_entries_by_stream(outputs: Seq<Output>, stream: Stream)
    ensures
        texts_tagged(output_entries(outputs), stream == Stream::Stderr) == lines_from(
            outputs,
            stream,
        ),
    decreases outputs.len(),
{
    let tag = stream == Stream::Stderr;
    if outputs.len() == 0 {
        reveal(Seq::filter);
    } else {
        let front = outputs.drop_last();
        let last = outputs.last();
        let entry = output_entry(last.0, last.1);
        lemma_entries_by_stream(front, stream);
        assert(outputs =~= front.push(last));
        assert(output_entries(outputs) =~= output_entries(front).push(entry));
        output_entries(front).lemma_filter_push(entry, has_tag(tag));
        front.lemma_filter_push(last, is_from(stream));
        let kept_lines = front.filter(is_from(stream));
        if last.0 == stream {
            assert(kept_lines.push(last).map_values(|o: Output| o.1) =~= kept_lines.map_values(
                |o: Output| o.1,
            ).push(last.1));
        }
    }
}

/// The texts with a given tag in two runs of entries, one after the other,
/// are those of the first run followed by those of the second.
pub proof fn lemma_texts_tagged_add(a: Seq<Entry>, b: Seq<Entry>, is_error: bool)
    ensures
        texts_tagged(a + b, is_error) == texts_tagged(a, is_error) + texts_tagged(b, is_error),
{
    Seq::filter_distributes_over_add(a, b, has_tag(is_error));
}

/// Lines of the two streams, read in any interleaving into a log that has
/// room for them all, end up in the log each under its stream's tag: after
/// what the log held before, the ordinary entries are the lines of standard
/// output in the order in which they were written, and the error entries are
/// the lines of standard error in theirs.
pub proof fn lemma_streams_kept_in_order(log: Seq<Entry>, outputs: Seq<Output>)
    requires
        log.len() + outputs.len() <= LOG_CAPACITY,
    ensures
        texts_tagged(recorded_all(log, output_entries(outputs)), false) == texts_tagged(log, false)
            + lines_from(outputs, Stream::Stdout),
        texts_tagged(recorded_all(log, output_entries(outputs)), true) == texts_tagged(log, true)
            + lines_from(outputs, Stream::Stderr),
{
    let entries = output_entries(outputs);
    lemma_recorded_all_keeps_latest(log, entries);
    lemma_texts_tagged_add(log, entries, false);
    lemma_texts_tagged_add(log, entries, true);
    lemma_entries_by_stream(outputs, Stream::Stdout);
    lemma_entries_by_stream(outputs, Stream::Stderr);
}

} // verus!
