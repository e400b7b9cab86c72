use matchx::async_journal::{
    AsyncJournal, AsyncJournalConfig, SendOutcome, Worker, WorkerAction, WorkerEvent,
};
use matchx::codec::JournalError;
use matchx::journal::JournalReader;
use matchx::types::{Command, OrderId};
use std::sync::mpsc::{sync_channel, Receiver, SyncSender, TryRecvError, TrySendError};

enum Message {
    Append(u64, Vec<u8>),
    Fault,
    Shutdown,
}

/// A journal whose writer runs when it is told to.
struct Journal {
    front: AsyncJournal,
    tx: SyncSender<Message>,
    rx: Receiver<Message>,
    worker: Worker,
    action: WorkerAction,
    file: Vec<u8>,
    writes: Vec<usize>,
    disk_fails: bool,
}

impl Journal {
    fn open(cfg: AsyncJournalConfig) -> Self {
        let (tx, rx) = sync_channel(cfg.queue_capacity);
        Journal {
            front: AsyncJournal::open(),
            tx,
            rx,
            worker: Worker::new(cfg.batch_size),
            action: WorkerAction::Receive,
            file: Vec::new(),
            writes: Vec::new(),
            disk_fails: false,
        }
    }

    fn append(&mut self, sequence: u64, cmd: &Command) -> Result<(), JournalError> {
        let bytes = self.front.append(self.worker.is_degraded(), sequence, cmd)?;
        let outcome = match self.tx.try_send(Message::Append(sequence, bytes)) {
            Ok(()) => SendOutcome::Sent,
            Err(TrySendError::Full(_)) => SendOutcome::Full,
            Err(TrySendError::Disconnected(_)) => SendOutcome::Disconnected,
        };
        self.front.sent(sequence, outcome)
    }

    /// Runs the writer until it waits or ends.
    fn run(&mut self) {
        loop {
            let event = match self.action {
                WorkerAction::Receive | WorkerAction::TryReceive => match self.rx.try_recv() {
                    Ok(Message::Append(sequence, bytes)) => WorkerEvent::Append { sequence, bytes },
                    Ok(Message::Fault) => WorkerEvent::Fault,
                    Ok(Message::Shutdown) => WorkerEvent::Shutdown,
                    Err(TryRecvError::Empty) if self.action == WorkerAction::Receive => return,
                    Err(TryRecvError::Empty) => WorkerEvent::Empty,
                    Err(TryRecvError::Disconnected) => WorkerEvent::Disconnected,
                },
                WorkerAction::Write if self.disk_fails => WorkerEvent::WriteFailed,
                WorkerAction::Write => {
                    self.writes.push(self.worker.batch().len());
                    for record in self.worker.batch() {
                        self.file.extend_from_slice(record);
                    }
                    WorkerEvent::Written
                }
                WorkerAction::Stop => return,
            };
            self.action = self.worker.step(event);
        }
    }
}

fn cmd() -> Command {
    Command::CancelOrder { id: OrderId(42) }
}

#[test]
fn async_journal_exposes_accepted_and_durable_sequence() {
    let j = Journal::open(AsyncJournalConfig::default());
    assert_eq!(j.front.accepted_sequence(), 0);
    assert_eq!(j.worker.durable_sequence(), 0);
}

#[test]
fn append_returns_queue_full_when_capacity_exhausted() {
    let cfg = AsyncJournalConfig {
        queue_capacity: 1,
        ..Default::default()
    };
    let mut j = Journal::open(cfg);

    j.append(1, &cmd()).unwrap();
    let err = j.append(2, &cmd()).unwrap_err();
    assert!(matches!(err, JournalError::QueueFull));
    assert_eq!(j.front.accepted_sequence(), 1);
}

#[test]
fn durable_sequence_catches_up_after_background_flush() {
    let mut j = Journal::open(AsyncJournalConfig::default());

    j.append(1, &cmd()).unwrap();
    j.append(2, &cmd()).unwrap();
    assert_eq!(j.worker.durable_sequence(), 0);
    j.run();
    assert!(j.worker.durable_sequence() >= 2);
    assert_eq!(j.front.accepted_sequence(), 2);
    assert_eq!(j.writes, vec![2]);
}

#[test]
fn append_fails_fast_after_writer_enters_degraded_state() {
    let mut j = Journal::open(AsyncJournalConfig::default());

    let _ = j.tx.try_send(Message::Fault);
    j.run();
    assert!(j.worker.is_degraded());
    assert!(matches!(
        j.append(10, &cmd()),
        Err(JournalError::WriterDegraded)
    ));
}

#[test]
fn defaults_of_the_configuration() {
    let cfg = AsyncJournalConfig::default();
    assert_eq!(cfg.queue_capacity, 1024);
    assert_eq!(cfg.batch_size, 64);
    assert_eq!(cfg.flush_interval_ms, 10);
    assert_eq!(cfg.segment_max_bytes, 64 * 1024 * 1024);
}

#[test]
fn batches_are_limited_and_written_in_order() {
    let cfg = AsyncJournalConfig {
        batch_size: 3,
        ..Default::default()
    };
    let mut j = Journal::open(cfg);
    for seq in 1..=8 {
        j.append(seq, &Command::CancelOrder { id: OrderId(seq) }).unwrap();
    }
    j.run();
    assert_eq!(j.writes, vec![3, 3, 2]);
    assert_eq!(j.worker.durable_sequence(), 8);
    let entries = JournalReader::open(vec![j.file]).read_all().unwrap();
    let sequences: Vec<u64> = entries.iter().map(|e| e.sequence).collect();
    assert_eq!(sequences, vec![1, 2, 3, 4, 5, 6, 7, 8]);
}

#[test]
fn a_batch_size_of_zero_counts_as_one() {
    let cfg = AsyncJournalConfig {
        batch_size: 0,
        ..Default::default()
    };
    let mut j = Journal::open(cfg);
    j.append(1, &cmd()).unwrap();
    j.append(2, &cmd()).unwrap();
    j.run();
    assert_eq!(j.writes, vec![1, 1]);
}

#[test]
fn a_failed_write_degrades_the_writer() {
    let mut j = Journal::open(AsyncJournalConfig::default());
    j.append(1, &cmd()).unwrap();
    j.disk_fails = true;
    j.run();
    assert!(j.worker.is_degraded());
    assert_eq!(j.worker.durable_sequence(), 0);
    assert_eq!(j.action, WorkerAction::Stop);
    assert_eq!(j.append(2, &cmd()), Err(JournalError::WriterDegraded));
}

#[test]
fn shutdown_writes_what_was_taken_and_ends() {
    let mut j = Journal::open(AsyncJournalConfig::default());
    j.append(1, &cmd()).unwrap();
    assert!(j.front.close());
    let _ = j.tx.try_send(Message::Shutdown);
    assert!(!j.front.close());
    assert_eq!(j.append(2, &cmd()), Err(JournalError::WriterStopped));
    j.run();
    assert_eq!(j.worker.durable_sequence(), 1);
    assert_eq!(j.action, WorkerAction::Stop);
    assert!(!j.worker.is_degraded());
}

#[test]
fn a_disconnected_queue_stops_the_front_and_the_writer() {
    let mut front = AsyncJournal::open();
    assert_eq!(
        front.sent(1, SendOutcome::Disconnected),
        Err(JournalError::WriterStopped)
    );
    assert_eq!(front.accepted_sequence(), 0);
    let mut worker = Worker::new(4);
    assert_eq!(worker.step(WorkerEvent::Disconnected), WorkerAction::Stop);

    let mut worker = Worker::new(4);
    let append = WorkerEvent::Append { sequence: 5, bytes: vec![1] };
    assert_eq!(worker.step(append), WorkerAction::TryReceive);
    assert_eq!(worker.step(WorkerEvent::Disconnected), WorkerAction::Write);
    assert_eq!(worker.step(WorkerEvent::Written), WorkerAction::Stop);
    assert_eq!(worker.durable_sequence(), 5);
}

#[test]
fn a_fault_while_batching_writes_the_batch_and_degrades() {
    let mut worker = Worker::new(4);
    let append = WorkerEvent::Append { sequence: 5, bytes: vec![1] };
    assert_eq!(worker.step(append), WorkerAction::TryReceive);
    assert_eq!(worker.step(WorkerEvent::Fault), WorkerAction::Write);
    assert!(worker.is_degraded());
    assert_eq!(worker.batch(), &vec![vec![1]]);
    assert_eq!(worker.step(WorkerEvent::Written), WorkerAction::Stop);
    assert_eq!(worker.durable_sequence(), 5);
}

#[test]
fn an_event_that_answers_nothing_changes_nothing() {
    let mut worker = Worker::new(4);
    assert_eq!(worker.step(WorkerEvent::Written), WorkerAction::Receive);
    assert_eq!(worker.step(WorkerEvent::Empty), WorkerAction::Receive);
    assert_eq!(worker.durable_sequence(), 0);
}
