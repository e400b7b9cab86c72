use matchx::async_journal::SendOutcome;
use matchx::codec::JournalError;
use matchx::engine::MatchingEngine;
use matchx::journal::{JournalReader, RecoveryManager};
use matchx::pipeline::EndToEndPipeline;
use matchx::types::{
    Command, InstrumentConfig, MatchEvent, OrderId, OrderType, Side, StpMode, TimeInForce,
};
use matchx::writer::JournalWriter;

fn test_config() -> InstrumentConfig {
    InstrumentConfig {
        id: 1,
        tick_size: 1,
        lot_size: 1,
        base_price: 0,
        max_ticks: 10_000,
        stp_mode: StpMode::CancelNewest,
    }
}

fn config() -> InstrumentConfig {
    InstrumentConfig {
        id: 1,
        tick_size: 1,
        lot_size: 1,
        base_price: 0,
        max_ticks: 1000,
        stp_mode: StpMode::CancelNewest,
    }
}

fn command_stream() -> Vec<Command> {
    vec![
        Command::NewOrder {
            id: OrderId(1),
            instrument_id: 1,
            side: Side::Ask,
            price: 100,
            qty: 50,
            order_type: OrderType::Limit,
            time_in_force: TimeInForce::GTC,
            visible_qty: None,
            stop_price: None,
            stp_group: None,
        },
        Command::NewOrder {
            id: OrderId(2),
            instrument_id: 1,
            side: Side::Bid,
            price: 100,
            qty: 30,
            order_type: OrderType::Limit,
            time_in_force: TimeInForce::GTC,
            visible_qty: None,
            stop_price: None,
            stp_group: None,
        },
        Command::CancelOrder { id: OrderId(1) },
    ]
}

/// Processes a command whose record goes to `wal`.
fn process(
    pipeline: &mut EndToEndPipeline,
    wal: &mut Vec<u8>,
    cmd: Command,
) -> Result<Vec<MatchEvent>, JournalError> {
    assert!(pipeline.has_room(&cmd));
    let pending = pipeline.process(false, cmd)?;
    wal.extend_from_slice(&pending.record);
    pipeline.finish(pending, SendOutcome::Sent)
}

#[test]
fn pipeline_processes_command_and_enqueues_wal_record() {
    let mut p = EndToEndPipeline::new(test_config(), 1024);
    let mut wal = Vec::new();
    let events = process(&mut p, &mut wal, Command::CancelOrder { id: OrderId(42) }).unwrap();
    assert!(!events.is_empty());
    assert!(p.accepted_sequence() >= 1);
    assert_eq!(wal.len(), 25);
}

#[test]
fn replay_matches_original_output_with_async_wal() {
    let commands = command_stream();

    let mut pipeline = EndToEndPipeline::new(config(), 1024);
    let mut wal = Vec::new();
    let mut original_outputs = Vec::with_capacity(commands.len());
    for cmd in &commands {
        original_outputs.push(process(&mut pipeline, &mut wal, *cmd).unwrap());
    }
    assert_eq!(pipeline.accepted_sequence(), commands.len() as u64);

    let report = RecoveryManager::recover_path(&mut wal);
    assert_eq!(report.last_valid_sequence, commands.len() as u64);

    let mut reader = JournalReader::open(vec![wal]);
    let entries = reader.read_all().unwrap();

    let mut replay_engine = MatchingEngine::new(config(), 1024);
    let replay_outputs: Vec<Vec<MatchEvent>> = entries
        .into_iter()
        .map(|entry| replay_engine.process(entry.command).to_vec())
        .collect();

    assert_eq!(original_outputs, replay_outputs);
}

#[test]
fn replay_produces_identical_output() {
    let commands = command_stream();

    // Run 1: process commands and write to journal.
    let mut engine1 = MatchingEngine::new(config(), 1024);
    let mut file = Vec::new();
    let mut writer = JournalWriter::open();
    let mut outputs1: Vec<Vec<MatchEvent>> = Vec::new();

    for (i, cmd) in commands.iter().enumerate() {
        let append = writer.append(i as u64 + 1, cmd);
        file.extend_from_slice(&append.record);
        writer.written(append.record.len() as u64);
        outputs1.push(engine1.process(*cmd).to_vec());
    }

    // Run 2: replay from journal.
    let mut engine2 = MatchingEngine::new(config(), 1024);
    let mut reader = JournalReader::open(vec![file]);
    let entries = reader.read_all().unwrap();
    let mut outputs2: Vec<Vec<MatchEvent>> = Vec::new();

    for entry in &entries {
        outputs2.push(engine2.process(entry.command).to_vec());
    }

    assert_eq!(outputs1, outputs2, "Replay output diverged from original");
    assert_eq!(engine1.snapshot(), engine2.snapshot());
}

#[test]
fn a_full_queue_keeps_the_events_back() {
    let mut p = EndToEndPipeline::new(config(), 16);
    let cmd = command_stream()[0];
    let pending = p.process(false, cmd).unwrap();
    assert_eq!(pending.sequence, 1);
    assert_eq!(p.finish(pending, SendOutcome::Full), Err(JournalError::QueueFull));
    assert_eq!(p.accepted_sequence(), 0);
    // The command was processed and numbered all the same.
    let pending = p.process(false, cmd).unwrap();
    assert_eq!(pending.sequence, 2);
    assert!(matches!(pending.events[0], MatchEvent::OrderRejected { .. }));
    assert_eq!(
        p.finish(pending, SendOutcome::Disconnected),
        Err(JournalError::WriterStopped)
    );
}

#[test]
fn a_degraded_or_closed_journal_takes_no_record() {
    let mut p = EndToEndPipeline::new(config(), 16);
    let cmd = command_stream()[2];
    assert_eq!(p.process(true, cmd).err(), Some(JournalError::WriterDegraded));
    assert!(p.close());
    assert!(!p.close());
    assert_eq!(p.process(false, cmd).err(), Some(JournalError::WriterStopped));
    assert_eq!(p.process(true, cmd).err(), Some(JournalError::WriterDegraded));
    assert_eq!(p.accepted_sequence(), 0);
}
