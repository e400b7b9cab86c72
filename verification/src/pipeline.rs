//! Engine and journal together: every command is numbered, processed and journaled.
use crate::arena::ORDER_BYTES;
use crate::async_journal::{AsyncJournal, SendOutcome};
use crate::codec::JournalError;
use crate::engine::MatchingEngine;
use crate::engine_model::Engine;
use crate::laws_bounds::{has_room, own_sides};
use crate::record::record_bytes;
use crate::types::{Command, InstrumentConfig, MatchEvent};
use vstd::prelude::*;
use vstd::slice::slice_to_vec;

verus! {

/// A command that was processed and whose record is to be handed to the journal.
pub struct Pending {
    pub sequence: u64,
    pub events: Vec<MatchEvent>,
    pub record: Vec<u8>,
}

/// A matching engine whose commands are journaled.
pub struct EndToEndPipeline {
    engine: MatchingEngine,
    journal: AsyncJournal,
    input_seq: u64,
}

impl EndToEndPipeline {
    /// The state of the engine.
    pub closed spec fn engine(&self) -> Engine {
        self.engine@
    }

    /// The journal's front door.
    pub closed spec fn journal(&self) -> AsyncJournal {
        self.journal
    }

    /// Number of commands so far.
    pub closed spec fn inputs(&self) -> u64 {
        self.input_seq
    }

    /// The engine is well formed.
    pub closed spec fn wf(&self) -> bool {
        self.engine.wf()
    }

    /// A pipeline that has seen no command.
    pub fn new(config: InstrumentConfig, arena_capacity: u32) -> (pipeline: Self)
        requires
            config.max_ticks < usize::MAX / 16,
            arena_capacity * ORDER_BYTES <= isize::MAX,
        ensures
            pipeline.wf(),
            pipeline.inputs() == 0,
            pipeline.journal().accepted() == 0,
            !pipeline.journal().is_closed(),
            pipeline.engine() == Engine::start(
                config.base_price,
                config.max_ticks,
                arena_capacity as nat,
                config.stp_mode,
            ),
    {
        EndToEndPipeline {
            engine: MatchingEngine::new(config, arena_capacity),
            journal: AsyncJournal::open(),
            input_seq: 0,
        }
    }

    /// The state of the engine of a well formed pipeline: its book is well formed, its
    /// stops wait on their own sides, and its numbers fit.
    pub proof fn lemma_state(&self)
        requires
            self.wf(),
        ensures
            self.engine().book.wf(),
            own_sides(self.engine()),
            self.engine().fits(),
            self.engine().book.orders.dom().len() <= u32::MAX,
    {
        self.engine.lemma_state();
    }

    /// Whether a command can be processed without bringing a number out of range.
    pub fn has_room(&self, cmd: &Command) -> (room: bool)
        requires
            self.wf(),
        ensures
            room == (self.inputs() < u64::MAX && has_room(self.engine(), *cmd)),
            room ==> self.engine().process(*cmd).fits(),
    {
        self.input_seq < u64::MAX && self.engine.has_room(cmd)
    }

    /// Processes a command and makes its record. The command counts as processed
    /// where the journal takes no record, too.
    pub fn process(&mut self, degraded: bool, cmd: Command) -> (pending: Result<
        Pending,
        JournalError,
    >)
        requires
            old(self).wf(),
            old(self).inputs() < u64::MAX,
            old(self).engine().process(cmd).fits(),
        ensures
            final(self).wf(),
            final(self).inputs() == old(self).inputs() + 1,
            final(self).engine() == old(self).engine().process(cmd),
            final(self).journal() == old(self).journal(),
            match pending {
                Ok(p) => {
                    &&& !degraded
                    &&& !old(self).journal().is_closed()
                    &&& p.sequence == final(self).inputs()
                    &&& p.events@ == final(self).engine().events
                    &&& p.record@ == record_bytes(p.sequence, cmd)
                },
                Err(e) => {
                    &&& degraded || old(self).journal().is_closed()
                    &&& e == (if degraded {
                        JournalError::WriterDegraded
                    } else {
                        JournalError::WriterStopped
                    })
                },
            },
    {
        self.input_seq = self.input_seq + 1;
        let events: Vec<MatchEvent> = slice_to_vec(self.engine.process(cmd));
        match self.journal.append(degraded, self.input_seq, &cmd) {
            Ok(record) => Ok(Pending { sequence: self.input_seq, events, record }),
            Err(e) => Err(e),
        }
    }

    /// Notes what became of the record, and hands out the events where it was taken.
    pub fn finish(&mut self, pending: Pending, outcome: SendOutcome) -> (events: Result<
        Vec<MatchEvent>,
        JournalError,
    >)
        ensures
            final(self).wf() == old(self).wf(),
            final(self).inputs() == old(self).inputs(),
            final(self).engine() == old(self).engine(),
            final(self).journal().is_closed() == old(self).journal().is_closed(),
            match events {
                Ok(list) => {
                    &&& outcome == SendOutcome::Sent
                    &&& list@ == pending.events@
                    &&& final(self).journal().accepted() == pending.sequence
                },
                Err(e) => {
                    &&& outcome != SendOutcome::Sent
                    &&& e == (if outcome == SendOutcome::Full {
                        JournalError::QueueFull
                    } else {
                        JournalError::WriterStopped
                    })
                    &&& final(self).journal() == old(self).journal()
                },
            },
    {
        match self.journal.sent(pending.sequence, outcome) {
            Ok(()) => Ok(pending.events),
            Err(e) => Err(e),
        }
    }

    /// Sequence of the last command whose record the journal accepted.
    pub fn accepted_sequence(&self) -> (sequence: u64)
        ensures
            sequence == self.journal().accepted(),
    {
        self.journal.accepted_sequence()
    }

    /// Closes the journal. Returns whether its writer is to be told.
    pub fn close(&mut self) -> (tell: bool)
        ensures
            tell == !old(self).journal().is_closed(),
            final(self).journal().is_closed(),
            final(self).journal().accepted() == old(self).journal().accepted(),
            final(self).engine() == old(self).engine(),
            final(self).inputs() == old(self).inputs(),
            final(self).wf() == old(self).wf(),
    {
        self.journal.close()
    }
}

} // verus!
