//! Reading and recovery of journal segments.
use crate::codec::JournalError;
use crate::record::{decode_record, record_of};
use crate::types::Command;
use vstd::prelude::*;
use vstd::slice::slice_subrange;

verus! {

/// A decoded journal record.
#[derive(Debug, Clone, Copy, PartialEq, Eq, Structural)]
pub struct JournalEntry {
    pub sequence: u64,
    pub command: Command,
}

/// `done` and then what follows.
pub open spec fn after(
    done: Seq<JournalEntry>,
    rest: Result<Seq<JournalEntry>, JournalError>,
) -> Result<Seq<JournalEntry>, JournalError> {
    match rest {
        Ok(entries) => Ok(done + entries),
        Err(e) => Err(e),
    }
}

/// The entries of a segment, or the error of its first bad record.
pub open spec fn entries_of(data: Seq<u8>) -> Result<Seq<JournalEntry>, JournalError>
    decreases data.len(),
{
    if data.len() == 0 {
        Ok(Seq::empty())
    } else {
        match record_of(data) {
            Err(e) => Err(e),
            Ok((sequence, command, used)) => after(
                seq![JournalEntry { sequence, command }],
                entries_of(data.skip(used)),
            ),
        }
    }
}

/// The contents of segments.
pub open spec fn contents(segments: Seq<Vec<u8>>) -> Seq<Seq<u8>> {
    segments.map_values(|segment: Vec<u8>| segment@)
}

/// The entries of several segments, or the error of the first bad record.
pub open spec fn all_entries(segments: Seq<Seq<u8>>) -> Result<Seq<JournalEntry>, JournalError>
    decreases segments.len(),
{
    if segments.len() == 0 {
        Ok(Seq::empty())
    } else {
        match entries_of(segments[0]) {
            Err(e) => Err(e),
            Ok(entries) => after(entries, all_entries(segments.drop_first())),
        }
    }
}

/// Reads the entries of a segment onto the end of `entries`.
fn read_segment(data: &Vec<u8>, entries: &mut Vec<JournalEntry>) -> (read: Result<(), JournalError>)
    ensures
        match after(old(entries)@, entries_of(data@)) {
            Ok(all) => read is Ok && final(entries)@ == all,
            Err(e) => read == Err::<(), _>(e),
        },
{
    let len: usize = data.len();
    let mut pos: usize = 0;
    let ghost end = after(old(entries)@, entries_of(data@));
    proof {
        assert(data@.skip(0) =~= data@);
    }
    while pos < len
        invariant
            pos <= len == data@.len(),
            end == after(entries@, entries_of(data@.skip(pos as int))),
            end == after(old(entries)@, entries_of(data@)),
        decreases len - pos,
    {
        let ghost rest = data@.skip(pos as int);
        let record = decode_record(slice_subrange(data.as_slice(), pos, len));
        assert(data@.subrange(pos as int, len as int) =~= rest);
        match record {
            Ok((sequence, command, used)) => {
                let entry = JournalEntry { sequence, command };
                proof {
                    assert(rest.skip(used as int) =~= data@.skip(pos + used));
                    match entries_of(rest.skip(used as int)) {
                        Ok(more) => {
                            assert(entries@ + (seq![entry] + more) =~= entries@.push(entry) + more);
                        },
                        Err(e) => {},
                    }
                }
                pos += used;
                entries.push(entry);
            },
            Err(e) => {
                return Err(e);
            },
        }
    }
    assert(data@.skip(pos as int) =~= Seq::<u8>::empty());
    assert(entries@ + Seq::<JournalEntry>::empty() =~= entries@);
    Ok(())
}

/// Sequential reader over the segments of a journal.
pub struct JournalReader {
    segments: Vec<Vec<u8>>,
}

impl JournalReader {
    /// The contents of the segments.
    pub closed spec fn view(&self) -> Seq<Seq<u8>> {
        contents(self.segments@)
    }

    /// A reader over segments, in their order.
    pub fn open(segments: Vec<Vec<u8>>) -> (reader: Self)
        ensures
            reader@ == contents(segments@),
    {
        JournalReader { segments }
    }

    /// Reads and checks every record.
    pub fn read_all(&mut self) -> (entries: Result<Vec<JournalEntry>, JournalError>)
        ensures
            final(self)@ == old(self)@,
            match all_entries(old(self)@) {
                Ok(all) => entries matches Ok(list) && list@ == all,
                Err(e) => entries matches Err(err) && err == e,
            },
    {
        let mut entries: Vec<JournalEntry> = Vec::new();
        let ghost segments = self@;
        let mut i: usize = 0;
        proof {
            assert(segments.skip(0) =~= segments);
            match all_entries(segments) {
                Ok(all) => {
                    assert(entries@ + all =~= all);
                },
                Err(e) => {},
            }
        }
        while i < self.segments.len()
            invariant
                i <= self.segments@.len(),
                *self == *old(self),
                segments == contents(self.segments@),
                segments == old(self)@,
                all_entries(segments) == after(entries@, all_entries(segments.skip(i as int))),
            decreases self.segments@.len() - i,
        {
            let ghost rest = segments.skip(i as int);
            let ghost done = entries@;
            proof {
                assert(rest[0] == self.segments@[i as int]@);
                assert(rest.drop_first() =~= segments.skip(i + 1));
            }
            match read_segment(&self.segments[i], &mut entries) {
                Ok(()) => {
                    proof {
                        match (entries_of(rest[0]), all_entries(rest.drop_first())) {
                            (Ok(first), Ok(more)) => {
                                assert(done + (first + more) =~= (done + first) + more);
                            },
                            _ => {},
                        }
                    }
                },
                Err(e) => {
                    return Err(e);
                },
            }
            i += 1;
        }
        assert(segments.skip(i as int) =~= Seq::<Seq<u8>>::empty());
        assert(entries@ + Seq::<JournalEntry>::empty() =~= entries@);
        Ok(entries)
    }
}

/// What recovery found.
#[derive(Debug, Clone, Copy, PartialEq, Eq, Structural)]
pub struct RecoveryReport {
    /// Sequence of the last valid record, zero where there is none.
    pub last_valid_sequence: u64,
    /// Bytes after the last valid record.
    pub truncated_bytes: u64,
}

impl Default for RecoveryReport {
    fn default() -> (report: Self)
        ensures
            report == (RecoveryReport { last_valid_sequence: 0, truncated_bytes: 0 }),
    {
        RecoveryReport { last_valid_sequence: 0, truncated_bytes: 0 }
    }
}

/// Length of the valid records that `data` start with.
pub open spec fn valid_len(data: Seq<u8>) -> int
    decreases data.len(),
{
    if data.len() == 0 {
        0
    } else {
        match record_of(data) {
            Ok((_, _, used)) => used + valid_len(data.skip(used)),
            Err(_) => 0,
        }
    }
}

/// Sequence of the last of the valid records that `data` start with, `so_far` where
/// there is none.
pub open spec fn last_sequence(data: Seq<u8>, so_far: u64) -> u64
    decreases data.len(),
{
    if data.len() == 0 {
        so_far
    } else {
        match record_of(data) {
            Ok((sequence, _, used)) => last_sequence(data.skip(used), sequence),
            Err(_) => so_far,
        }
    }
}

/// What recovery of a segment finds.
pub open spec fn segment_report(data: Seq<u8>) -> RecoveryReport {
    RecoveryReport {
        last_valid_sequence: last_sequence(data, 0),
        truncated_bytes: (data.len() - valid_len(data)) as u64,
    }
}

/// A segment without what follows its valid records.
pub open spec fn repaired(data: Seq<u8>) -> Seq<u8> {
    data.take(valid_len(data))
}

/// The valid records are part of the data.
pub proof fn lemma_valid_len(data: Seq<u8>)
    ensures
        0 <= valid_len(data) <= data.len(),
    decreases data.len(),
{
    if data.len() > 0 {
        match record_of(data) {
            Ok((_, _, used)) => {
                lemma_valid_len(data.skip(used));
            },
            Err(_) => {},
        }
    }
}

/// Number of bytes that recovery of several segments cuts off.
pub open spec fn cut_bytes(segments: Seq<Seq<u8>>) -> int
    decreases segments.len(),
{
    if segments.len() == 0 {
        0
    } else {
        cut_bytes(segments.drop_last()) + (segments.last().len() - valid_len(segments.last()))
    }
}

/// Sequence of the last valid record of several segments: that of the last segment
/// that has one other than zero.
pub open spec fn last_of_all(segments: Seq<Seq<u8>>) -> u64
    decreases segments.len(),
{
    if segments.len() == 0 {
        0
    } else if last_sequence(segments.last(), 0) != 0 {
        last_sequence(segments.last(), 0)
    } else {
        last_of_all(segments.drop_last())
    }
}

/// Segments without what follows their valid records.
pub open spec fn all_repaired(segments: Seq<Seq<u8>>) -> Seq<Seq<u8>> {
    segments.map_values(|segment: Seq<u8>| repaired(segment))
}

/// The more segments, the more bytes are cut off.
proof fn lemma_cut_grows(segments: Seq<Seq<u8>>, i: int)
    requires
        0 <= i <= segments.len(),
    ensures
        0 <= cut_bytes(segments.take(i)) <= cut_bytes(segments),
    decreases segments.len(),
{
    if segments.len() == 0 {
    } else if i == segments.len() {
        assert(segments.take(i) =~= segments);
        lemma_cut_grows(segments.drop_last(), i - 1);
        lemma_valid_len(segments.last());
        assert(segments.drop_last().take(i - 1) =~= segments.drop_last());
    } else {
        lemma_cut_grows(segments.drop_last(), i);
        lemma_valid_len(segments.last());
        assert(segments.drop_last().take(i) =~= segments.take(i));
    }
}

/// Cuts damaged ends off journal segments.
pub struct RecoveryManager;

impl RecoveryManager {
    /// Cuts a segment off after its last valid record.
    pub fn recover_path(data: &mut Vec<u8>) -> (report: RecoveryReport)
        ensures
            report == segment_report(old(data)@),
            final(data)@ == repaired(old(data)@),
            report.truncated_bytes == old(data)@.len() - final(data)@.len(),
    {
        let len: usize = data.len();
        let mut pos: usize = 0;
        let mut last_valid_sequence: u64 = 0;
        proof {
            assert(data@.skip(0) =~= data@);
            lemma_valid_len(data@);
        }
        while pos < len
            invariant
                pos <= len == data@.len(),
                data@ == old(data)@,
                pos + valid_len(data@.skip(pos as int)) == valid_len(data@),
                last_sequence(data@.skip(pos as int), last_valid_sequence) == last_sequence(data@, 0),
            ensures
                data@ == old(data)@,
                pos <= len == data@.len(),
                pos == valid_len(data@),
                last_valid_sequence == last_sequence(data@, 0),
            decreases len - pos,
        {
            let ghost rest = data@.skip(pos as int);
            assert(data@.subrange(pos as int, len as int) =~= rest);
            match decode_record(slice_subrange(data.as_slice(), pos, len)) {
                Ok((sequence, _, used)) => {
                    assert(rest.skip(used as int) =~= data@.skip(pos + used));
                    pos += used;
                    last_valid_sequence = sequence;
                },
                Err(_) => {
                    break;
                },
            }
        }
        let truncated_bytes: u64 = (len - pos) as u64;
        if truncated_bytes > 0 {
            data.truncate(pos);
        }
        assert(data@ =~= old(data)@.take(pos as int));
        RecoveryReport { last_valid_sequence, truncated_bytes }
    }

    /// Cuts each segment off after its last valid record.
    pub fn recover_dir(segments: &mut Vec<Vec<u8>>) -> (report: RecoveryReport)
        requires
            cut_bytes(contents(old(segments)@)) <= u64::MAX,
        ensures
            contents(final(segments)@) == all_repaired(contents(old(segments)@)),
            report.last_valid_sequence == last_of_all(contents(old(segments)@)),
            report.truncated_bytes == cut_bytes(contents(old(segments)@)),
    {
        let mut report: RecoveryReport = RecoveryReport::default();
        let ghost before = contents(segments@);
        let count: usize = segments.len();
        let mut i: usize = 0;
        proof {
            assert(before.take(0) =~= Seq::<Seq<u8>>::empty());
        }
        while i < count
            invariant
                i <= count == segments@.len() == before.len(),
                before == contents(old(segments)@),
                cut_bytes(before) <= u64::MAX,
                report.last_valid_sequence == last_of_all(before.take(i as int)),
                report.truncated_bytes == cut_bytes(before.take(i as int)),
                forall|k: int| 0 <= k < i ==> #[trigger] segments@[k]@ == repaired(before[k]),
                forall|k: int| i <= k < count ==> #[trigger] segments@[k]@ == before[k],
            decreases count - i,
        {
            proof {
                assert(before.take(i + 1).drop_last() =~= before.take(i as int));
                assert(before.take(i + 1).last() == before[i as int]);
                lemma_cut_grows(before, i + 1);
                lemma_valid_len(before[i as int]);
            }
            let segment = &mut segments[i];
            let found: RecoveryReport = RecoveryManager::recover_path(segment);
            if found.last_valid_sequence != 0 {
                report.last_valid_sequence = found.last_valid_sequence;
            }
            report.truncated_bytes = report.truncated_bytes + found.truncated_bytes;
            i += 1;
        }
        proof {
            assert(before.take(count as int) =~= before);
            assert(contents(segments@) =~= all_repaired(before));
        }
        report
    }
}

} // verus!
