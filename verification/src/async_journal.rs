//! The decisions of the background journal writer: which appends are taken, how they
//! are batched, and when a sequence is durable.
use crate::codec::JournalError;
use crate::journal::contents;
use crate::record::{encode_record, record_bytes};
use crate::types::Command;
use vstd::prelude::*;

verus! {

/// Configuration of the background writer.
#[derive(Debug, Clone, Copy, PartialEq, Eq, Structural)]
pub struct AsyncJournalConfig {
    pub queue_capacity: usize,
    pub batch_size: usize,
    pub flush_interval_ms: u64,
    pub segment_max_bytes: u64,
}

impl Default for AsyncJournalConfig {
    fn default() -> (config: Self)
        ensures
            config == (AsyncJournalConfig {
                queue_capacity: 1024,
                batch_size: 64,
                flush_interval_ms: 10,
                segment_max_bytes: 67108864,
            }),
    {
        AsyncJournalConfig {
            queue_capacity: 1024,
            batch_size: 64,
            flush_interval_ms: 10,
            segment_max_bytes: 67108864,
        }
    }
}

/// What became of a record that was handed to the queue.
#[derive(Debug, Clone, Copy, PartialEq, Eq, Structural)]
pub enum SendOutcome {
    Sent,
    Full,
    Disconnected,
}

/// Front door of the background writer: what has been accepted, and whether it is
/// closed.
#[derive(Debug, Clone, Copy, PartialEq, Eq, Structural)]
pub struct AsyncJournal {
    accepted: u64,
    closed: bool,
}

impl AsyncJournal {
    /// Sequence of the last accepted record, zero before the first.
    pub closed spec fn accepted(&self) -> u64 {
        self.accepted
    }

    /// Whether the journal is closed.
    pub closed spec fn is_closed(&self) -> bool {
        self.closed
    }

    /// An open journal that has accepted nothing.
    pub fn open() -> (journal: Self)
        ensures
            journal.accepted() == 0,
            !journal.is_closed(),
    {
        AsyncJournal { accepted: 0, closed: false }
    }

    /// The record to hand to the queue. A degraded writer and a closed journal take
    /// none.
    pub fn append(&self, degraded: bool, sequence: u64, cmd: &Command) -> (record: Result<
        Vec<u8>,
        JournalError,
    >)
        ensures
            match record {
                Ok(bytes) => !degraded && !self.is_closed() && bytes@ == record_bytes(
                    sequence,
                    *cmd,
                ),
                Err(e) => e == (if degraded {
                    JournalError::WriterDegraded
                } else {
                    JournalError::WriterStopped
                }) && (degraded || self.is_closed()),
            },
    {
        if degraded {
            return Err(JournalError::WriterDegraded);
        }
        if self.closed {
            return Err(JournalError::WriterStopped);
        }
        Ok(encode_record(sequence, cmd))
    }

    /// Notes what became of the record with that sequence.
    pub fn sent(&mut self, sequence: u64, outcome: SendOutcome) -> (result: Result<(), JournalError>)
        ensures
            final(self).is_closed() == old(self).is_closed(),
            outcome == SendOutcome::Sent ==> result is Ok && final(self).accepted() == sequence,
            outcome == SendOutcome::Full ==> result == Err::<(), _>(JournalError::QueueFull)
                && *final(self) == *old(self),
            outcome == SendOutcome::Disconnected ==> result == Err::<(), _>(
                JournalError::WriterStopped,
            ) && *final(self) == *old(self),
    {
        match outcome {
            SendOutcome::Sent => {
                self.accepted = sequence;
                Ok(())
            },
            SendOutcome::Full => Err(JournalError::QueueFull),
            SendOutcome::Disconnected => Err(JournalError::WriterStopped),
        }
    }

    /// Sequence of the last accepted record.
    pub fn accepted_sequence(&self) -> (sequence: u64)
        ensures
            sequence == self.accepted(),
    {
        self.accepted
    }

    /// Closes the journal. Returns whether the writer is to be told: only the first
    /// time.
    pub fn close(&mut self) -> (tell: bool)
        ensures
            tell == !old(self).is_closed(),
            final(self).is_closed(),
            final(self).accepted() == old(self).accepted(),
    {
        let tell: bool = !self.closed;
        self.closed = true;
        tell
    }
}

/// What happens to the writer.
pub enum WorkerEvent {
    /// A record came out of the queue.
    Append { sequence: u64, bytes: Vec<u8> },
    /// The journal was closed.
    Shutdown,
    /// The writer is to fail.
    Fault,
    /// The queue is empty.
    Empty,
    /// No more records can come.
    Disconnected,
    /// The batch was written.
    Written,
    /// The batch could not be written.
    WriteFailed,
}

/// What the writer does next.
#[derive(Debug, Clone, Copy, PartialEq, Eq, Structural)]
pub enum WorkerAction {
    /// Waits for the queue.
    Receive,
    /// Looks into the queue.
    TryReceive,
    /// Writes the batch.
    Write,
    /// Ends.
    Stop,
}

/// The background writer between two actions.
#[verifier::ext_equal]
pub struct Batching {
    pub batch_size: nat,
    /// Records to be written, oldest first.
    pub batch: Seq<Seq<u8>>,
    /// Sequence of the last record taken.
    pub last: u64,
    /// Whether the writer ends after this batch.
    pub exits: bool,
    /// Sequence of the last record written.
    pub durable: u64,
    /// Whether the writer has failed.
    pub degraded: bool,
    /// What the writer is doing.
    pub doing: WorkerAction,
}

impl Batching {
    /// A writer that waits for its first record.
    pub open spec fn start(batch_size: nat) -> Batching {
        Batching {
            batch_size: if batch_size > 1 {
                batch_size
            } else {
                1
            },
            batch: Seq::empty(),
            last: 0,
            exits: false,
            durable: 0,
            degraded: false,
            doing: WorkerAction::Receive,
        }
    }

    /// A record joins the batch, which is written when it is full.
    pub open spec fn taken(self, sequence: u64, bytes: Seq<u8>) -> Batching {
        let batch = self.batch.push(bytes);
        Batching {
            batch,
            last: sequence,
            doing: if batch.len() < self.batch_size {
                WorkerAction::TryReceive
            } else {
                WorkerAction::Write
            },
            ..self
        }
    }

    /// What an event makes of the writer. Events that do not answer what the writer
    /// is doing leave it as it is.
    pub open spec fn step(self, event: WorkerEvent) -> Batching {
        match (self.doing, event) {
            (WorkerAction::Receive, WorkerEvent::Append { sequence, bytes }) => self.taken(
                sequence,
                bytes@,
            ),
            (WorkerAction::Receive, WorkerEvent::Shutdown) => Batching {
                doing: WorkerAction::Stop,
                ..self
            },
            (WorkerAction::Receive, WorkerEvent::Disconnected) => Batching {
                doing: WorkerAction::Stop,
                ..self
            },
            (WorkerAction::Receive, WorkerEvent::Fault) => Batching {
                degraded: true,
                doing: WorkerAction::Stop,
                ..self
            },
            (WorkerAction::TryReceive, WorkerEvent::Append { sequence, bytes }) => self.taken(
                sequence,
                bytes@,
            ),
            (WorkerAction::TryReceive, WorkerEvent::Empty) => Batching {
                doing: WorkerAction::Write,
                ..self
            },
            (WorkerAction::TryReceive, WorkerEvent::Shutdown) => Batching {
                exits: true,
                doing: WorkerAction::Write,
                ..self
            },
            (WorkerAction::TryReceive, WorkerEvent::Disconnected) => Batching {
                exits: true,
                doing: WorkerAction::Write,
                ..self
            },
            (WorkerAction::TryReceive, WorkerEvent::Fault) => Batching {
                degraded: true,
                exits: true,
                doing: WorkerAction::Write,
                ..self
            },
            (WorkerAction::Write, WorkerEvent::Written) => Batching {
                batch: Seq::empty(),
                durable: self.last,
                doing: if self.exits {
                    WorkerAction::Stop
                } else {
                    WorkerAction::Receive
                },
                ..self
            },
            (WorkerAction::Write, WorkerEvent::WriteFailed) => Batching {
                degraded: true,
                doing: WorkerAction::Stop,
                ..self
            },
            _ => self,
        }
    }

    /// A batch is never longer than its limit; there is something to write when the
    /// writer writes, and nothing is left over when it waits.
    pub open spec fn wf(self) -> bool {
        &&& self.batch_size >= 1
        &&& self.batch.len() <= self.batch_size
        &&& self.doing == WorkerAction::Receive ==> self.batch.len() == 0
        &&& self.doing == WorkerAction::TryReceive ==> 0 < self.batch.len() < self.batch_size
        &&& self.doing == WorkerAction::Write ==> self.batch.len() > 0
    }

    /// Every event keeps the writer well formed.
    pub proof fn lemma_step(self, event: WorkerEvent)
        requires
            self.wf(),
        ensures
            self.step(event).wf(),
    {
    }

    /// The writer after several events.
    pub open spec fn run(self, events: Seq<WorkerEvent>) -> Batching
        decreases events.len(),
    {
        if events.len() == 0 {
            self
        } else {
            self.run(events.drop_last()).step(events.last())
        }
    }

    /// The records that the writer takes out of the queue.
    pub open spec fn received(self, events: Seq<WorkerEvent>) -> Seq<Seq<u8>>
        decreases events.len(),
    {
        if events.len() == 0 {
            Seq::empty()
        } else {
            let before = self.received(events.drop_last());
            match (self.run(events.drop_last()).doing, events.last()) {
                (WorkerAction::Receive, WorkerEvent::Append { sequence, bytes }) => before.push(bytes@),
                (WorkerAction::TryReceive, WorkerEvent::Append { sequence, bytes }) => before.push(
                    bytes@,
                ),
                _ => before,
            }
        }
    }

    /// The sequences of the records that the writer takes out of the queue.
    pub open spec fn sequences(self, events: Seq<WorkerEvent>) -> Seq<u64>
        decreases events.len(),
    {
        if events.len() == 0 {
            Seq::empty()
        } else {
            let before = self.sequences(events.drop_last());
            match (self.run(events.drop_last()).doing, events.last()) {
                (WorkerAction::Receive, WorkerEvent::Append { sequence, bytes }) => before.push(sequence),
                (WorkerAction::TryReceive, WorkerEvent::Append { sequence, bytes }) => before.push(
                    sequence,
                ),
                _ => before,
            }
        }
    }

    /// The records that have been written.
    pub open spec fn written(self, events: Seq<WorkerEvent>) -> Seq<Seq<u8>>
        decreases events.len(),
    {
        if events.len() == 0 {
            Seq::empty()
        } else {
            let state = self.run(events.drop_last());
            let before = self.written(events.drop_last());
            if state.doing == WorkerAction::Write && events.last() is Written {
                before + state.batch
            } else {
                before
            }
        }
    }
}

/// A writer that has failed stays so, and one that has ended does nothing more.
pub proof fn law_failure_is_final(state: Batching, event: WorkerEvent)
    ensures
        state.degraded ==> state.step(event).degraded,
        state.doing == WorkerAction::Stop ==> state.step(event) == state,
{
}

/// A record that comes out of the queue joins the batch, behind those that are there. A
/// full batch is written; before that the writer looks for more, and writes when there is
/// no more. Nothing is durable on that account.
pub proof fn law_batch_is_written_when_full_or_last(state: Batching, event: WorkerEvent)
    requires
        state.wf(),
        event is Append,
        state.doing == WorkerAction::Receive || state.doing == WorkerAction::TryReceive,
    ensures
        ({
            let next = state.step(event);
            &&& next.batch.len() == state.batch.len() + 1
            &&& next.batch.drop_last() == state.batch
            &&& next.batch.last() == event->bytes@
            &&& next.last == event->sequence
            &&& next.durable == state.durable
            &&& next.degraded == state.degraded
            &&& next.exits == state.exits
            &&& next.batch_size == state.batch_size
            &&& next.batch.len() == state.batch_size ==> next.doing == WorkerAction::Write
            &&& next.batch.len() < state.batch_size ==> next.doing == WorkerAction::TryReceive
                && next.step(WorkerEvent::Empty).doing == WorkerAction::Write
                && next.step(WorkerEvent::Empty).batch == next.batch
        }),
{
    let next = state.step(event);
    assert(next.batch.drop_last() =~= state.batch);
}

/// A batch that is written makes the last record taken durable and leaves nothing to
/// write; the writer then waits for more. One that could not be written makes nothing
/// durable, and the writer fails and ends.
pub proof fn law_written_is_durable(state: Batching)
    requires
        state.wf(),
        state.doing == WorkerAction::Write,
    ensures
        state.step(WorkerEvent::Written).durable == state.last,
        state.step(WorkerEvent::Written).batch.len() == 0,
        state.step(WorkerEvent::Written).degraded == state.degraded,
        !state.exits ==> state.step(WorkerEvent::Written).doing == WorkerAction::Receive,
        state.exits ==> state.step(WorkerEvent::Written).doing == WorkerAction::Stop,
        state.step(WorkerEvent::WriteFailed).durable == state.durable,
        state.step(WorkerEvent::WriteFailed).degraded,
        state.step(WorkerEvent::WriteFailed).doing == WorkerAction::Stop,
{
}

/// A writer that is told to end, whose queue is gone or that is to fail writes what it
/// has taken and then ends; with nothing taken it ends at once. Only one that is to fail
/// has failed.
pub proof fn law_end_loses_nothing(state: Batching, event: WorkerEvent)
    requires
        state.wf(),
        event is Shutdown || event is Disconnected || event is Fault,
        state.doing == WorkerAction::Receive || state.doing == WorkerAction::TryReceive,
    ensures
        ({
            let next = state.step(event);
            &&& next.degraded == (state.degraded || event is Fault)
            &&& next.batch == state.batch
            &&& next.durable == state.durable
            &&& if state.batch.len() == 0 {
                next.doing == WorkerAction::Stop
            } else {
                &&& next.doing == WorkerAction::Write
                &&& next.step(WorkerEvent::Written).durable == state.last
                &&& next.step(WorkerEvent::Written).doing == WorkerAction::Stop
                &&& next.step(WorkerEvent::Written).degraded == next.degraded
            }
        }),
{
}

/// What does not answer the writer changes nothing.
pub proof fn law_stray_events_change_nothing(state: Batching, event: WorkerEvent)
    requires
        match state.doing {
            WorkerAction::Receive => event is Empty || event is Written || event is WriteFailed,
            WorkerAction::TryReceive => event is Written || event is WriteFailed,
            WorkerAction::Write => !(event is Written) && !(event is WriteFailed),
            WorkerAction::Stop => true,
        },
    ensures
        state.step(event) == state,
{
}

/// Records are written in the order in which they were received; those not yet
/// written are in the batch. The durable sequence is that of the last record written,
/// zero before the first.
pub proof fn law_durable_is_written(batch_size: nat, events: Seq<WorkerEvent>)
    ensures
        ({
            let start = Batching::start(batch_size);
            let now = start.run(events);
            let written = start.written(events);
            &&& now.wf()
            &&& start.received(events) == written + now.batch
            &&& start.sequences(events).len() == start.received(events).len()
            &&& now.durable == (if written.len() == 0 {
                0
            } else {
                start.sequences(events)[written.len() - 1]
            })
        }),
    decreases events.len(),
{
    lemma_last_received(batch_size, events);
    let start = Batching::start(batch_size);
    if events.len() == 0 {
        assert(start.received(events) =~= start.written(events) + start.run(events).batch);
    } else {
        law_durable_is_written(batch_size, events.drop_last());
        lemma_last_received(batch_size, events.drop_last());
        start.run(events.drop_last()).lemma_step(events.last());
        assert(start.received(events) =~= start.written(events) + start.run(events).batch);
    }
}

/// The writer remembers the sequence of the last record that it took.
proof fn lemma_last_received(batch_size: nat, events: Seq<WorkerEvent>)
    ensures
        ({
            let start = Batching::start(batch_size);
            start.sequences(events).len() > 0 ==> start.run(events).last == start.sequences(
                events,
            ).last()
        }),
    decreases events.len(),
{
    if events.len() > 0 {
        lemma_last_received(batch_size, events.drop_last());
    }
}

/// The background writer.
pub struct Worker {
    batch_size: usize,
    batch: Vec<Vec<u8>>,
    last_sequence: u64,
    should_exit: bool,
    durable: u64,
    degraded: bool,
    doing: WorkerAction,
}

impl Worker {
    /// The state of the writer.
    pub closed spec fn view(&self) -> Batching {
        Batching {
            batch_size: self.batch_size as nat,
            batch: contents(self.batch@),
            last: self.last_sequence,
            exits: self.should_exit,
            durable: self.durable,
            degraded: self.degraded,
            doing: self.doing,
        }
    }

    /// A writer that waits for its first record.
    pub fn new(batch_size: usize) -> (worker: Self)
        ensures
            worker@ == Batching::start(batch_size as nat),
            worker@.wf(),
    {
        let limit: usize = if batch_size > 1 {
            batch_size
        } else {
            1
        };
        let worker = Worker {
            batch_size: limit,
            batch: Vec::new(),
            last_sequence: 0,
            should_exit: false,
            durable: 0,
            degraded: false,
            doing: WorkerAction::Receive,
        };
        assert(worker@ =~= Batching::start(batch_size as nat));
        worker
    }

    /// Takes a record into the batch.
    fn take(&mut self, sequence: u64, bytes: Vec<u8>)
        requires
            old(self)@.batch.len() < old(self)@.batch_size,
        ensures
            final(self)@ == old(self)@.taken(sequence, bytes@),
    {
        self.last_sequence = sequence;
        self.batch.push(bytes);
        self.doing =
        if self.batch.len() < self.batch_size {
            WorkerAction::TryReceive
        } else {
            WorkerAction::Write
        };
        assert(self@ =~= old(self)@.taken(sequence, bytes@));
    }

    /// Handles an event and says what to do next.
    pub fn step(&mut self, event: WorkerEvent) -> (action: WorkerAction)
        requires
            old(self)@.wf(),
        ensures
            final(self)@ == old(self)@.step(event),
            final(self)@.wf(),
            action == final(self)@.doing,
    {
        proof {
            self@.lemma_step(event);
        }
        match (self.doing, event) {
            (WorkerAction::Receive, WorkerEvent::Append { sequence, bytes }) => {
                self.take(sequence, bytes);
            },
            (WorkerAction::Receive, WorkerEvent::Shutdown) => {
                self.doing = WorkerAction::Stop;
            },
            (WorkerAction::Receive, WorkerEvent::Disconnected) => {
                self.doing = WorkerAction::Stop;
            },
            (WorkerAction::Receive, WorkerEvent::Fault) => {
                self.degraded = true;
                self.doing = WorkerAction::Stop;
            },
            (WorkerAction::TryReceive, WorkerEvent::Append { sequence, bytes }) => {
                self.take(sequence, bytes);
            },
            (WorkerAction::TryReceive, WorkerEvent::Empty) => {
                self.doing = WorkerAction::Write;
            },
            (WorkerAction::TryReceive, WorkerEvent::Shutdown) => {
                self.should_exit = true;
                self.doing = WorkerAction::Write;
            },
            (WorkerAction::TryReceive, WorkerEvent::Disconnected) => {
                self.should_exit = true;
                self.doing = WorkerAction::Write;
            },
            (WorkerAction::TryReceive, WorkerEvent::Fault) => {
                self.degraded = true;
                self.should_exit = true;
                self.doing = WorkerAction::Write;
            },
            (WorkerAction::Write, WorkerEvent::Written) => {
                self.batch = Vec::new();
                self.durable = self.last_sequence;
                self.doing =
                if self.should_exit {
                    WorkerAction::Stop
                } else {
                    WorkerAction::Receive
                };
            },
            (WorkerAction::Write, WorkerEvent::WriteFailed) => {
                self.degraded = true;
                self.doing = WorkerAction::Stop;
            },
            _ => {},
        }
        assert(self@ =~= old(self)@.step(event));
        self.doing
    }

    /// The records to write, oldest first.
    pub fn batch(&self) -> (batch: &Vec<Vec<u8>>)
        ensures
            contents(batch@) == self@.batch,
    {
        &self.batch
    }

    /// Sequence of the last record written.
    pub fn durable_sequence(&self) -> (sequence: u64)
        ensures
            sequence == self@.durable,
    {
        self.durable
    }

    /// Whether the writer has failed.
    pub fn is_degraded(&self) -> (degraded: bool)
        ensures
            degraded == self@.degraded,
    {
        self.degraded
    }
}

} // verus!
