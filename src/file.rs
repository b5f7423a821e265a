use vstd::prelude::*;
use crate::encoding::{BasicEncoding, log_event_as_bytes_with_nl, record_spec};
use crate::event::LogEvent;

verus! {

/// Configuration of a sink that writes every record to one file.
pub struct FileSinkConfig {
    pub path: Vec<u8>,
    pub encoding: Option<BasicEncoding>,
}

impl FileSinkConfig {
    pub fn new(path: Vec<u8>) -> (r: FileSinkConfig)
        ensures
            r.path@ == path@,
            r.encoding is None,
    {
        FileSinkConfig { path, encoding: None }
    }
}

/// Where a sink stands with its file. `Disconnected` is terminal.
#[derive(Clone, Copy, Debug, PartialEq, Eq)]
pub enum SinkState {
    Disconnected,
    Opening,
    Connected,
}

/// What polling the pending open of the file reported.
#[derive(Clone, Debug, PartialEq, Eq)]
pub enum OpenPoll {
    Pending,
    Opened,
    Failed(String),
}

/// What polling a write-side operation (flush or shutdown) reported.
#[derive(Clone, Debug, PartialEq, Eq)]
pub enum IoPoll {
    Pending,
    Done,
    Failed(String),
}

/// Errors a sink surfaces to its caller.
#[derive(Clone, Debug, PartialEq, Eq)]
pub enum SinkError {
    /// The sink failed earlier; nothing more is attempted.
    Disconnected,
    /// The file could not be opened.
    Open(String),
    /// Writing, flushing or closing the file failed.
    Write(String),
}

#[derive(Clone, Copy, Debug, PartialEq, Eq)]
pub enum Readiness {
    Ready,
    NotReady,
}

/// Outcome of offering a buffer to a sink.
#[derive(Debug)]
pub enum StartSend {
    /// Accepted: the buffer is to be queued on the file, after all earlier ones.
    Accepted(Vec<u8>),
    /// Not ready yet: the buffer goes back to the caller, to be offered again.
    NotReady(Vec<u8>),
}

/// How the file is opened.
#[derive(Clone, Copy, Debug, PartialEq, Eq)]
pub struct OpenOptions {
    pub create: bool,
    pub append: bool,
    pub truncate: bool,
}

/// Options for opening a sink's file: create when absent, append, never truncate.
pub fn open_options() -> (r: OpenOptions)
    ensures
        r.create,
        r.append,
        !r.truncate,
{
    OpenOptions { create: true, append: true, truncate: false }
}

/// The error every operation on a failed sink reports.
pub fn disconnected() -> (r: SinkError)
    ensures
        r == SinkError::Disconnected,
{
    SinkError::Disconnected
}

/// Drives a pending open: the next state, and whether the file is usable.
pub open spec fn poll_file_spec(s: SinkState, open: OpenPoll) -> (SinkState, Result<Readiness, SinkError>) {
    match s {
        SinkState::Disconnected => (s, Err(SinkError::Disconnected)),
        SinkState::Connected => (s, Ok(Readiness::Ready)),
        SinkState::Opening => match open {
            OpenPoll::Pending => (s, Ok(Readiness::NotReady)),
            OpenPoll::Opened => (SinkState::Connected, Ok(Readiness::Ready)),
            OpenPoll::Failed(e) => (SinkState::Disconnected, Err(SinkError::Open(e))),
        },
    }
}

/// Drives the open, then the flush of what was queued.
pub open spec fn poll_complete_spec(s: SinkState, open: OpenPoll, flush: IoPoll) -> (SinkState, Result<Readiness, SinkError>) {
    let (s1, r1) = poll_file_spec(s, open);
    match r1 {
        Ok(Readiness::Ready) => match flush {
            IoPoll::Pending => (s1, Ok(Readiness::NotReady)),
            IoPoll::Done => (s1, Ok(Readiness::Ready)),
            IoPoll::Failed(e) => (SinkState::Disconnected, Err(SinkError::Write(e))),
        },
        _ => (s1, r1),
    }
}

/// Flushes, then shuts the file down.
pub open spec fn close_spec(s: SinkState, open: OpenPoll, flush: IoPoll, shutdown: IoPoll) -> (SinkState, Result<Readiness, SinkError>) {
    let (s2, r2) = poll_complete_spec(s, open, flush);
    match r2 {
        Ok(Readiness::Ready) => match shutdown {
            IoPoll::Pending => (s2, Ok(Readiness::NotReady)),
            IoPoll::Done => (s2, Ok(Readiness::Ready)),
            IoPoll::Failed(e) => (SinkState::Disconnected, Err(SinkError::Write(e))),
        },
        _ => (s2, r2),
    }
}

/// Writes records to one file. The file is opened lazily and append-only; any
/// failure disables the sink for good.
pub struct FileSink {
    pub path: Vec<u8>,
    state: SinkState,
    /// Every buffer accepted so far, in the order accepted.
    accepted: Ghost<Seq<Seq<u8>>>,
}

impl FileSink {
    pub closed spec fn path_of(&self) -> Seq<u8> {
        self.path@
    }

    pub closed spec fn state_of(&self) -> SinkState {
        self.state
    }

    /// The buffers handed to the file so far, in order.
    pub closed spec fn accepted_of(&self) -> Seq<Seq<u8>> {
        self.accepted@
    }

    /// A sink whose file is being opened.
    pub fn new(path: Vec<u8>) -> (r: FileSink)
        ensures
            r.path_of() == path@,
            r.state_of() == SinkState::Opening,
            r.accepted_of() == Seq::<Seq<u8>>::empty(),
    {
        FileSink { path, state: SinkState::Opening, accepted: Ghost(Seq::empty()) }
    }

    pub fn state(&self) -> (r: SinkState)
        ensures
            r == self.state_of(),
    {
        self.state
    }

    /// Advances the pending open, given what polling it reported (consulted
    /// only while opening).
    pub fn poll_file(&mut self, open: OpenPoll) -> (r: Result<Readiness, SinkError>)
        ensures
            (final(self).state_of(), r) == poll_file_spec(old(self).state_of(), open),
            final(self).accepted_of() == old(self).accepted_of(),
            final(self).path_of() == old(self).path_of(),
    {
        match self.state {
            SinkState::Disconnected => Err(disconnected()),
            SinkState::Connected => Ok(Readiness::Ready),
            SinkState::Opening => match open {
                OpenPoll::Pending => Ok(Readiness::NotReady),
                OpenPoll::Opened => {
                    self.state = SinkState::Connected;
                    Ok(Readiness::Ready)
                },
                OpenPoll::Failed(e) => {
                    self.state = SinkState::Disconnected;
                    Err(SinkError::Open(e))
                },
            },
        }
    }

    /// Offers one buffer. It is accepted once the file is open; before that it
    /// comes back. On a failed sink it is dropped and the error reported.
    pub fn start_send(&mut self, line: Vec<u8>, open: OpenPoll) -> (r: Result<StartSend, SinkError>)
        ensures
            final(self).state_of() == poll_file_spec(old(self).state_of(), open).0,
            final(self).path_of() == old(self).path_of(),
            match poll_file_spec(old(self).state_of(), open).1 {
                Ok(Readiness::Ready) => (r matches Ok(StartSend::Accepted(b)) && b@ == line@)
                    && final(self).accepted_of() == old(self).accepted_of().push(line@),
                Ok(Readiness::NotReady) => (r matches Ok(StartSend::NotReady(b)) && b@ == line@)
                    && final(self).accepted_of() == old(self).accepted_of(),
                Err(e) => r == Err::<StartSend, SinkError>(e) && final(self).accepted_of()
                    == old(self).accepted_of(),
            },
    {
        match self.poll_file(open) {
            Ok(Readiness::Ready) => {
                self.accepted = Ghost(self.accepted@.push(line@));
                Ok(StartSend::Accepted(line))
            },
            Ok(Readiness::NotReady) => Ok(StartSend::NotReady(line)),
            Err(e) => Err(e),
        }
    }

    /// Advances the open and the flush of queued buffers, given what polling
    /// each reported (the flush is consulted only once the file is open).
    pub fn poll_complete(&mut self, open: OpenPoll, flush: IoPoll) -> (r: Result<Readiness, SinkError>)
        ensures
            (final(self).state_of(), r) == poll_complete_spec(old(self).state_of(), open, flush),
            final(self).accepted_of() == old(self).accepted_of(),
            final(self).path_of() == old(self).path_of(),
    {
        if let SinkState::Disconnected = self.state {
            return Err(disconnected());
        }
        match self.poll_file(open) {
            Ok(Readiness::Ready) => match flush {
                IoPoll::Pending => Ok(Readiness::NotReady),
                IoPoll::Done => Ok(Readiness::Ready),
                IoPoll::Failed(e) => {
                    self.state = SinkState::Disconnected;
                    Err(SinkError::Write(e))
                },
            },
            other => other,
        }
    }

    /// Flushes, then shuts the file down; done once both have completed.
    pub fn close(&mut self, open: OpenPoll, flush: IoPoll, shutdown: IoPoll) -> (r: Result<Readiness, SinkError>)
        ensures
            (final(self).state_of(), r) == close_spec(old(self).state_of(), open, flush, shutdown),
            final(self).accepted_of() == old(self).accepted_of(),
            final(self).path_of() == old(self).path_of(),
    {
        match self.poll_complete(open, flush) {
            Ok(Readiness::Ready) => match shutdown {
                IoPoll::Pending => Ok(Readiness::NotReady),
                IoPoll::Done => Ok(Readiness::Ready),
                IoPoll::Failed(e) => {
                    self.state = SinkState::Disconnected;
                    Err(SinkError::Write(e))
                },
            },
            other => other,
        }
    }
}

/// Outcome of offering a record to an encoding sink.
#[derive(Debug)]
pub enum EventSend {
    /// Accepted: the encoded record is to be queued on the file.
    Accepted(Vec<u8>),
    /// Not ready yet: the record goes back to the caller.
    NotReady(LogEvent),
}

/// A sink that encodes each record as one line before offering it.
pub struct EmbeddedFileSink {
    pub sink: FileSink,
    pub encoding: Option<BasicEncoding>,
}

impl FileSink {
    pub fn new_with_encoding(path: Vec<u8>, encoding: Option<BasicEncoding>) -> (r: EmbeddedFileSink)
        ensures
            r.sink.path_of() == path@,
            r.sink.state_of() == SinkState::Opening,
            r.sink.accepted_of() == Seq::<Seq<u8>>::empty(),
            r.encoding == encoding,
    {
        EmbeddedFileSink { sink: FileSink::new(path), encoding }
    }
}

impl EmbeddedFileSink {
    /// Encodes the record and offers the line, as `FileSink::start_send` does;
    /// a line that is not taken yet is handed back as the record.
    pub fn start_send(&mut self, event: LogEvent, open: OpenPoll) -> (r: Result<EventSend, SinkError>)
        ensures
            final(self).encoding == old(self).encoding,
            final(self).sink.state_of() == poll_file_spec(old(self).sink.state_of(), open).0,
            final(self).sink.path_of() == old(self).sink.path_of(),
            match poll_file_spec(old(self).sink.state_of(), open).1 {
                Ok(Readiness::Ready) => (r matches Ok(EventSend::Accepted(b)) && b@ == record_spec(
                    event@,
                    old(self).encoding,
                )) && final(self).sink.accepted_of() == old(self).sink.accepted_of().push(
                    record_spec(event@, old(self).encoding),
                ),
                Ok(Readiness::NotReady) => (r matches Ok(EventSend::NotReady(e)) && e@ == event@)
                    && final(self).sink.accepted_of() == old(self).sink.accepted_of(),
                Err(e) => r == Err::<EventSend, SinkError>(e) && final(self).sink.accepted_of()
                    == old(self).sink.accepted_of(),
            },
    {
        let line = log_event_as_bytes_with_nl(&event, self.encoding);
        match self.sink.start_send(line, open) {
            Ok(StartSend::Accepted(b)) => Ok(EventSend::Accepted(b)),
            Ok(StartSend::NotReady(_)) => Ok(EventSend::NotReady(event)),
            Err(e) => Err(e),
        }
    }
}

/// A failed sink stays failed: whatever is reported to it, every operation
/// leaves it disconnected and reports `Disconnected`, so no buffer is accepted.
pub proof fn lemma_disconnected_is_terminal(open: OpenPoll, flush: IoPoll, shutdown: IoPoll)
    ensures
        poll_file_spec(SinkState::Disconnected, open) == (
        SinkState::Disconnected,
        Err::<Readiness, SinkError>(SinkError::Disconnected),
        ),
        poll_complete_spec(SinkState::Disconnected, open, flush) == (
        SinkState::Disconnected,
        Err::<Readiness, SinkError>(SinkError::Disconnected),
        ),
        close_spec(SinkState::Disconnected, open, flush, shutdown) == (
        SinkState::Disconnected,
        Err::<Readiness, SinkError>(SinkError::Disconnected),
        ),
{
}

/// Opening and connected sinks never fall back to opening once connected,
/// and only a reported failure disconnects them.
pub proof fn lemma_failure_only_disconnects(s: SinkState, open: OpenPoll, flush: IoPoll)
    requires
        s != SinkState::Disconnected,
    ensures
        poll_complete_spec(s, open, flush).0 == SinkState::Disconnected <==> (
        (s == SinkState::Opening && open is Failed)
        || (poll_file_spec(s, open).1 == Ok::<Readiness, SinkError>(Readiness::Ready) && flush is Failed)),
        s == SinkState::Connected ==> poll_complete_spec(s, open, flush).0 != SinkState::Opening,
{
}

} // verus!
