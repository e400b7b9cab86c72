//! Laws of the journal: what is written is read back, recovery keeps all that is
//! whole, and a replay gives the same events.
use crate::codec::JournalError;
use crate::engine_model::Engine;
use crate::journal::{
    after, all_entries, all_repaired, cut_bytes, entries_of, last_of_all, last_sequence,
    lemma_valid_len, repaired, valid_len, JournalEntry,
};
use crate::record::{
    covered_part, lemma_record_cut, lemma_record_round_trip, payload_len, record_bytes, record_of,
};
use crate::types::{Command, MatchEvent};
use crate::writer::Placement;
use vstd::prelude::*;

verus! {

/// The journal of commands that are numbered from `first` on.
pub open spec fn journal_of(commands: Seq<Command>, first: nat) -> Seq<u8>
    decreases commands.len(),
{
    if commands.len() == 0 {
        Seq::empty()
    } else {
        record_bytes(first as u64, commands[0]) + journal_of(commands.drop_first(), first + 1)
    }
}

/// The entries of such a journal.
pub open spec fn numbered(commands: Seq<Command>, first: nat) -> Seq<JournalEntry> {
    Seq::new(
        commands.len(),
        |i: int| JournalEntry { sequence: (first + i) as u64, command: commands[i] },
    )
}

/// The commands of entries.
pub open spec fn commands_in(entries: Seq<JournalEntry>) -> Seq<Command> {
    entries.map_values(|entry: JournalEntry| entry.command)
}

/// The events of each of several commands, one after the other.
pub open spec fn outputs(state: Engine, commands: Seq<Command>) -> Seq<Seq<MatchEvent>>
    decreases commands.len(),
{
    if commands.len() == 0 {
        Seq::empty()
    } else {
        let next = state.process(commands[0]);
        seq![next.events] + outputs(next, commands.drop_first())
    }
}

/// Reading a record and what follows it.
proof fn lemma_first_record(sequence: u64, command: Command, rest: Seq<u8>, so_far: u64)
    ensures
        ({
            let all = record_bytes(sequence, command) + rest;
            &&& entries_of(all) == after(
                seq![JournalEntry { sequence, command }],
                entries_of(rest),
            )
            &&& valid_len(all) == record_bytes(sequence, command).len() + valid_len(rest)
            &&& last_sequence(all, so_far) == last_sequence(rest, sequence)
        }),
{
    let record = record_bytes(sequence, command);
    let all = record + rest;
    lemma_record_round_trip(sequence, command, rest);
    assert(all.skip(record.len() as int) =~= rest);
}

/// `a` and then `b` and then the rest is `a` with `b` and then the rest.
proof fn lemma_after(
    a: Seq<JournalEntry>,
    b: Seq<JournalEntry>,
    rest: Result<Seq<JournalEntry>, JournalError>,
)
    ensures
        after(a, after(b, rest)) == after(a + b, rest),
{
    match rest {
        Ok(entries) => {
            assert(a + (b + entries) =~= (a + b) + entries);
        },
        Err(_) => {},
    }
}

/// Reading a journal gives back its commands with their numbers, and then whatever
/// follows it.
proof fn lemma_journal_read(commands: Seq<Command>, first: nat, tail: Seq<u8>, so_far: u64)
    ensures
        entries_of(journal_of(commands, first) + tail) == after(
            numbered(commands, first),
            entries_of(tail),
        ),
        valid_len(journal_of(commands, first) + tail) == journal_of(commands, first).len()
            + valid_len(tail),
        last_sequence(journal_of(commands, first) + tail, so_far) == last_sequence(
            tail,
            if commands.len() > 0 {
                (first + commands.len() - 1) as u64
            } else {
                so_far
            },
        ),
    decreases commands.len(),
{
    if commands.len() == 0 {
        assert(journal_of(commands, first) + tail =~= tail);
        assert(numbered(commands, first) =~= Seq::<JournalEntry>::empty());
        match entries_of(tail) {
            Ok(entries) => {
                assert(numbered(commands, first) + entries =~= entries);
            },
            Err(_) => {},
        }
    } else {
        let record = record_bytes(first as u64, commands[0]);
        let more = commands.drop_first();
        let rest = journal_of(more, first + 1) + tail;
        assert(journal_of(commands, first) + tail =~= record + rest);
        lemma_first_record(first as u64, commands[0], rest, so_far);
        lemma_journal_read(more, first + 1, tail, first as u64);
        let entry = JournalEntry { sequence: first as u64, command: commands[0] };
        lemma_after(seq![entry], numbered(more, first + 1), entries_of(tail));
        assert(seq![entry] + numbered(more, first + 1) =~= numbered(commands, first));
    }
}

/// What was written to a journal is read back: the same commands, in the same order,
/// with the same numbers.
pub proof fn law_journal_round_trip(commands: Seq<Command>, first: nat)
    ensures
        entries_of(journal_of(commands, first)) == Ok::<_, JournalError>(numbered(commands, first)),
        commands_in(numbered(commands, first)) == commands,
{
    let none = Seq::<u8>::empty();
    lemma_journal_read(commands, first, none, 0);
    assert(journal_of(commands, first) + none =~= journal_of(commands, first));
    assert(numbered(commands, first) + Seq::<JournalEntry>::empty() =~= numbered(commands, first));
    assert(commands_in(numbered(commands, first)) =~= commands);
}

/// Replaying a journal from the same state gives the same events.
pub proof fn law_replay_is_deterministic(state: Engine, commands: Seq<Command>, first: nat)
    ensures
        entries_of(journal_of(commands, first)) matches Ok(entries) && outputs(
            state,
            commands_in(entries),
        ) == outputs(state, commands),
{
    law_journal_round_trip(commands, first);
}

/// Segments that hold parts of a stream of commands, numbered from `first` on.
pub open spec fn segments_of(parts: Seq<Seq<Command>>, first: nat) -> Seq<Seq<u8>>
    decreases parts.len(),
{
    if parts.len() == 0 {
        Seq::empty()
    } else {
        seq![journal_of(parts[0], first)] + segments_of(
            parts.drop_first(),
            first + parts[0].len(),
        )
    }
}

/// All parts together.
pub open spec fn joined(parts: Seq<Seq<Command>>) -> Seq<Command>
    decreases parts.len(),
{
    if parts.len() == 0 {
        Seq::empty()
    } else {
        parts[0] + joined(parts.drop_first())
    }
}

/// A journal in several segments is read back as one, in sequence order.
pub proof fn law_segments_read_as_one(parts: Seq<Seq<Command>>, first: nat)
    ensures
        all_entries(segments_of(parts, first)) == Ok::<_, JournalError>(
            numbered(joined(parts), first),
        ),
    decreases parts.len(),
{
    let segments = segments_of(parts, first);
    if parts.len() == 0 {
        assert(numbered(joined(parts), first) =~= Seq::<JournalEntry>::empty());
    } else {
        let rest = segments_of(parts.drop_first(), first + parts[0].len());
        law_journal_round_trip(parts[0], first);
        law_segments_read_as_one(parts.drop_first(), first + parts[0].len());
        assert(segments[0] == journal_of(parts[0], first));
        assert(segments.drop_first() =~= rest);
        assert(numbered(parts[0], first) + numbered(
            joined(parts.drop_first()),
            first + parts[0].len(),
        ) =~= numbered(joined(parts), first));
    }
}

/// A journal whose last record was torn, wherever, is recovered to its last whole
/// record; where there is none, to nothing.
pub proof fn law_torn_journal_recovers(
    commands: Seq<Command>,
    first: nat,
    sequence: u64,
    cmd: Command,
    cut: int,
)
    requires
        0 <= cut < record_bytes(sequence, cmd).len(),
    ensures
        ({
            let torn = journal_of(commands, first) + record_bytes(sequence, cmd).take(cut);
            &&& repaired(torn) == journal_of(commands, first)
            &&& last_sequence(torn, 0) == (if commands.len() > 0 {
                (first + commands.len() - 1) as u64
            } else {
                0
            })
            &&& torn.len() - valid_len(torn) == cut
            &&& entries_of(repaired(torn)) == Ok::<_, JournalError>(numbered(commands, first))
        }),
{
    let part = record_bytes(sequence, cmd).take(cut);
    let torn = journal_of(commands, first) + part;
    lemma_record_cut(sequence, cmd, cut);
    lemma_journal_read(commands, first, part, 0);
    assert(repaired(torn) =~= journal_of(commands, first));
    law_journal_round_trip(commands, first);
}

/// A record does not depend on what follows it.
proof fn lemma_record_prefix(data: Seq<u8>, m: int)
    requires
        record_of(data) matches Ok((_, _, used)) && used <= m <= data.len(),
    ensures
        record_of(data.take(m)) == record_of(data),
{
    let part = data.take(m);
    let n = payload_len(data)->Some_0;
    assert(part.subrange(0, 4) =~= data.subrange(0, 4));
    assert(covered_part(part, n) =~= covered_part(data, n));
    assert(part.subrange(12 + n, 16 + n) =~= data.subrange(12 + n, 16 + n));
    assert(part.subrange(4, 12) =~= data.subrange(4, 12));
    assert(part.subrange(12, 12 + n) =~= data.subrange(12, 12 + n));
}

/// Whatever a segment holds, after recovery all of it can be read, and recovering it
/// again changes nothing.
pub proof fn law_recovered_segment_is_whole(data: Seq<u8>)
    ensures
        entries_of(repaired(data)) is Ok,
        repaired(repaired(data)) == repaired(data),
        last_sequence(repaired(data), 0) == last_sequence(data, 0),
{
    lemma_recovered(data, 0);
    lemma_valid_len(data);
    assert(repaired(repaired(data)) =~= repaired(data));
}

proof fn lemma_recovered(data: Seq<u8>, so_far: u64)
    ensures
        entries_of(repaired(data)) is Ok,
        valid_len(repaired(data)) == repaired(data).len(),
        last_sequence(repaired(data), so_far) == last_sequence(data, so_far),
    decreases data.len(),
{
    lemma_valid_len(data);
    let whole = repaired(data);
    if data.len() > 0 {
        match record_of(data) {
            Ok((sequence, _, used)) => {
                let rest = data.skip(used);
                lemma_valid_len(rest);
                lemma_record_prefix(data, valid_len(data));
                lemma_recovered(rest, sequence);
                assert(whole.skip(used) =~= repaired(rest));
            },
            Err(_) => {
                assert(whole =~= Seq::<u8>::empty());
            },
        }
    } else {
        assert(whole =~= data);
    }
}

/// Whatever the segments of a journal hold, after recovery all of them can be read.
pub proof fn law_recovered_journal_is_whole(segments: Seq<Seq<u8>>)
    ensures
        all_entries(all_repaired(segments)) is Ok,
    decreases segments.len(),
{
    let whole = all_repaired(segments);
    if segments.len() > 0 {
        law_recovered_segment_is_whole(segments[0]);
        law_recovered_journal_is_whole(segments.drop_first());
        assert(whole[0] == repaired(segments[0]));
        assert(whole.drop_first() =~= all_repaired(segments.drop_first()));
    }
}

/// A good record stays the same where bytes follow it.
proof fn lemma_record_extended(data: Seq<u8>, tail: Seq<u8>)
    requires
        record_of(data) is Ok,
    ensures
        record_of(data + tail) == record_of(data),
{
    let all = data + tail;
    let n = payload_len(data)->Some_0;
    assert(all.subrange(0, 4) =~= data.subrange(0, 4));
    assert(covered_part(all, n) =~= covered_part(data, n));
    assert(all.subrange(12 + n, 16 + n) =~= data.subrange(12 + n, 16 + n));
    assert(all.subrange(4, 12) =~= data.subrange(4, 12));
    assert(all.subrange(12, 12 + n) =~= data.subrange(12, 12 + n));
}

/// What follows good records is read after them.
proof fn lemma_entries_extended(data: Seq<u8>, tail: Seq<u8>)
    requires
        entries_of(data) is Ok,
    ensures
        entries_of(data + tail) == after(entries_of(data)->Ok_0, entries_of(tail)),
    decreases data.len(),
{
    if data.len() == 0 {
        assert(data + tail =~= tail);
        match entries_of(tail) {
            Ok(entries) => {
                assert(Seq::<JournalEntry>::empty() + entries =~= entries);
            },
            Err(_) => {},
        }
    } else {
        match record_of(data) {
            Ok((sequence, command, used)) => {
                let rest = data.skip(used);
                lemma_record_extended(data, tail);
                lemma_entries_extended(rest, tail);
                assert((data + tail).skip(used) =~= rest + tail);
                lemma_after(
                    seq![JournalEntry { sequence, command }],
                    entries_of(rest)->Ok_0,
                    entries_of(tail),
                );
            },
            Err(_) => {},
        }
    }
}

/// Recovery cuts off no more than it must: no longer part of a segment can be read.
pub proof fn law_recovery_keeps_all_that_can_be_read(data: Seq<u8>, m: int)
    requires
        0 <= m <= data.len(),
        entries_of(data.take(m)) is Ok,
    ensures
        repaired(data).len() >= m,
        repaired(data).len() == data.len() || record_of(data.skip(repaired(data).len() as int))
            is Err,
        repaired(data) == data.take(repaired(data).len() as int),
    decreases data.len(),
{
    lemma_valid_len(data);
    lemma_cut_at_bad_record(data);
    let part = data.take(m);
    if m > 0 {
        match record_of(part) {
            Ok((sequence, command, used)) => {
                lemma_record_extended(part, data.skip(m));
                assert(part + data.skip(m) =~= data);
                let rest = data.skip(used);
                assert(part.skip(used) =~= rest.take(m - used));
                law_recovery_keeps_all_that_can_be_read(rest, m - used);
                lemma_valid_len(rest);
            },
            Err(_) => {},
        }
    }
}

/// What recovery cuts off does not start with a record.
proof fn lemma_cut_at_bad_record(data: Seq<u8>)
    ensures
        valid_len(data) == data.len() || record_of(data.skip(valid_len(data))) is Err,
    decreases data.len(),
{
    if data.len() > 0 {
        match record_of(data) {
            Ok((_, _, used)) => {
                let rest = data.skip(used);
                lemma_valid_len(rest);
                lemma_cut_at_bad_record(rest);
                assert(rest.skip(valid_len(rest)) =~= data.skip(valid_len(data)));
            },
            Err(_) => {
                assert(data.skip(0) =~= data);
            },
        }
    }
}

/// The last sequence of a segment is that of its last entry.
proof fn lemma_last_entry(data: Seq<u8>, so_far: u64)
    requires
        entries_of(data) is Ok,
    ensures
        last_sequence(data, so_far) == if entries_of(data)->Ok_0.len() == 0 {
            so_far
        } else {
            entries_of(data)->Ok_0.last().sequence
        },
    decreases data.len(),
{
    if data.len() > 0 {
        match record_of(data) {
            Ok((sequence, command, used)) => {
                lemma_last_entry(data.skip(used), sequence);
                let rest = entries_of(data.skip(used))->Ok_0;
                let entry = JournalEntry { sequence, command };
                assert(entries_of(data)->Ok_0 == seq![entry] + rest);
                if rest.len() == 0 {
                    assert((seq![entry] + rest).last() == entry);
                } else {
                    assert((seq![entry] + rest).last() == rest.last());
                }
            },
            Err(_) => {},
        }
    }
}

/// What recovery of a journal reports: the number of the last record that can be read
/// afterwards, where that is not zero, and how many bytes fewer there are.
pub proof fn law_recovery_reports_the_last_record(segments: Seq<Seq<u8>>)
    ensures
        all_entries(all_repaired(segments)) matches Ok(entries) && (entries.len() == 0
            ==> last_of_all(segments) == 0) && (entries.len() > 0 && entries.last().sequence != 0
            ==> last_of_all(segments) == entries.last().sequence),
        cut_bytes(segments) == total_len(segments) - total_len(all_repaired(segments)),
    decreases segments.len(),
{
    law_recovered_journal_is_whole(segments);
    let whole = all_repaired(segments);
    if segments.len() > 0 {
        let less = segments.drop_last();
        law_recovery_reports_the_last_record(less);
        law_recovered_journal_is_whole(less);
        law_recovered_segment_is_whole(segments.last());
        lemma_valid_len(segments.last());
        let last = repaired(segments.last());
        assert(whole =~= all_repaired(less).push(last));
        assert(whole.drop_last() =~= all_repaired(less));
        lemma_last_segment(all_repaired(less), last);
        lemma_last_entry(last, 0);
    } else {
        assert(whole =~= Seq::<Seq<u8>>::empty());
    }
}

/// Number of bytes in segments.
pub open spec fn total_len(segments: Seq<Seq<u8>>) -> int
    decreases segments.len(),
{
    if segments.len() == 0 {
        0
    } else {
        total_len(segments.drop_last()) + segments.last().len()
    }
}

/// What is in the last segment is read last.
proof fn lemma_last_segment(segments: Seq<Seq<u8>>, data: Seq<u8>)
    requires
        all_entries(segments) is Ok,
        entries_of(data) is Ok,
    ensures
        all_entries(segments.push(data)) == Ok::<_, JournalError>(
            all_entries(segments)->Ok_0 + entries_of(data)->Ok_0,
        ),
    decreases segments.len(),
{
    let more = segments.push(data);
    if segments.len() == 0 {
        assert(more.drop_first() =~= Seq::<Seq<u8>>::empty());
        assert(all_entries(more.drop_first()) == Ok::<_, JournalError>(Seq::<JournalEntry>::empty()));
        assert(entries_of(data)->Ok_0 + Seq::<JournalEntry>::empty() =~= Seq::<
            JournalEntry,
        >::empty() + entries_of(data)->Ok_0);
    } else {
        let rest = segments.drop_first();
        lemma_last_segment(rest, data);
        assert(more.drop_first() =~= rest.push(data));
        let first = entries_of(segments[0])->Ok_0;
        let others = all_entries(rest)->Ok_0;
        assert(first + (others + entries_of(data)->Ok_0) =~= (first + others) + entries_of(
            data,
        )->Ok_0);
    }
}

/// Segments with a record more.
pub open spec fn stored(
    segments: Seq<Seq<u8>>,
    placement: Placement,
    record: Seq<u8>,
) -> Seq<Seq<u8>> {
    match placement {
        Placement::Here => segments.drop_last().push(segments.last() + record),
        Placement::NewSegment(_) => segments.push(record),
    }
}

/// A record that is appended, to the last segment or to a new one, is read back after
/// all that were there.
pub proof fn law_append_is_read_back(
    segments: Seq<Seq<u8>>,
    placement: Placement,
    sequence: u64,
    command: Command,
)
    requires
        all_entries(segments) is Ok,
        placement == Placement::Here ==> segments.len() > 0,
    ensures
        all_entries(stored(segments, placement, record_bytes(sequence, command))) == Ok::<
            _,
            JournalError,
        >(all_entries(segments)->Ok_0.push(JournalEntry { sequence, command })),
{
    let record = record_bytes(sequence, command);
    let entry = JournalEntry { sequence, command };
    let none = Seq::<u8>::empty();
    lemma_first_record(sequence, command, none, 0);
    assert(record + none =~= record);
    assert(entries_of(record) == Ok::<_, JournalError>(seq![entry])) by {
        assert(seq![entry] + Seq::<JournalEntry>::empty() =~= seq![entry]);
    }
    match placement {
        Placement::Here => {
            let whole = segments.drop_last();
            let last = segments.last();
            lemma_parts_read(segments);
            lemma_entries_extended(last, record);
            lemma_last_segment(whole, last);
            lemma_last_segment(whole, last + record);
            assert(whole.push(last) =~= segments);
            assert(all_entries(whole)->Ok_0 + (entries_of(last)->Ok_0 + seq![entry])
                =~= all_entries(segments)->Ok_0.push(entry));
        },
        Placement::NewSegment(_) => {
            lemma_last_segment(segments, record);
            assert(all_entries(segments)->Ok_0 + seq![entry] =~= all_entries(segments)->Ok_0.push(
                entry,
            ));
        },
    }
}

/// Where all segments can be read, so can all but the last, and the last.
proof fn lemma_parts_read(segments: Seq<Seq<u8>>)
    requires
        segments.len() > 0,
        all_entries(segments) is Ok,
    ensures
        all_entries(segments.drop_last()) is Ok,
        entries_of(segments.last()) is Ok,
    decreases segments.len(),
{
    if segments.len() > 1 {
        lemma_parts_read(segments.drop_first());
        assert(segments.drop_last().drop_first() =~= segments.drop_first().drop_last());
        assert(segments.drop_last()[0] == segments[0]);
    } else {
        assert(segments.drop_last() =~= Seq::<Seq<u8>>::empty());
    }
}

} // verus!
