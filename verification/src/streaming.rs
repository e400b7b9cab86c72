//! Reading journal segments one record at a time.
use crate::bytes::read_u32;
use crate::codec::{u32_at, JournalError};
use crate::engine_model::lesser;
use crate::journal::{after, all_entries, contents, entries_of, JournalEntry};
use crate::record::{covered_part, decode_record, payload_len, record_of, FRAME_BYTES};
use vstd::prelude::*;
use vstd::slice::slice_subrange;

verus! {

/// A place in a journal: a segment, and a position in it.
pub struct Place {
    pub segment: int,
    pub pos: int,
}

/// Where the record that `data` start with ends: after it, or at the end of the
/// data where some of it is missing.
pub open spec fn record_end(data: Seq<u8>) -> int {
    match payload_len(data) {
        Some(n) => FRAME_BYTES + n,
        None => data.len() as int,
    }
}

/// The next entry from `at` on, and the place after it. Less than the four bytes of
/// a length end a segment.
pub open spec fn next_of(segments: Seq<Seq<u8>>, at: Place) -> (
    Result<Option<JournalEntry>, JournalError>,
    Place,
)
    decreases segments.len() - at.segment,
{
    if at.segment >= segments.len() {
        (Ok(None), at)
    } else {
        let rest = segments[at.segment].skip(at.pos);
        if rest.len() < 4 {
            next_of(segments, Place { segment: at.segment + 1, pos: 0 })
        } else {
            let end = Place { segment: at.segment, pos: at.pos + record_end(rest) };
            match record_of(rest) {
                Ok((sequence, command, _)) => (Ok(Some(JournalEntry { sequence, command })), end),
                Err(e) => (Err(e), end),
            }
        }
    }
}

/// Length of what follows the four bytes of a record's length: sequence, payload
/// and checksum.
pub fn body_len(header: &[u8]) -> (len: u64)
    requires
        header@.len() >= 4,
    ensures
        len == 12 + u32_at(header@, 0),
{
    12 + read_u32(header, 0) as u64
}

/// What a reader that holds one record at a time is to do when it has read up to four
/// bytes of a record's length.
#[derive(Debug, Clone, Copy, PartialEq, Eq, Structural)]
pub enum HeaderStep {
    /// The segment has ended: go on with the next one.
    NextSegment,
    /// Read up to that many bytes more.
    ReadBody(u64),
}

/// What is to be done after `header`, as a specification.
pub open spec fn after_header(header: Seq<u8>) -> HeaderStep {
    if header.len() < 4 {
        HeaderStep::NextSegment
    } else {
        HeaderStep::ReadBody((12 + u32_at(header, 0)) as u64)
    }
}

/// What is to be done after up to four bytes of a record's length were read.
pub fn header_step(header: &[u8]) -> (step: HeaderStep)
    ensures
        step == after_header(header@),
{
    if header.len() < 4 {
        HeaderStep::NextSegment
    } else {
        HeaderStep::ReadBody(body_len(header))
    }
}

/// The entry of a record, given its length and what could be read of what follows it.
pub fn body_step(header: &[u8], body: &[u8]) -> (entry: Result<JournalEntry, JournalError>)
    ensures
        entry == entry_of(header@ + body@),
{
    let mut record: Vec<u8> = Vec::with_capacity(4);
    record.extend_from_slice(header);
    record.extend_from_slice(body);
    assert(record@ =~= header@ + body@);
    match decode_record(record.as_slice()) {
        Ok((sequence, command, _)) => Ok(JournalEntry { sequence, command }),
        Err(e) => Err(e),
    }
}

/// The entry of the record that `data` start with.
pub open spec fn entry_of(data: Seq<u8>) -> Result<JournalEntry, JournalError> {
    match record_of(data) {
        Ok((sequence, command, _)) => Ok(JournalEntry { sequence, command }),
        Err(e) => Err(e),
    }
}

/// The record that data start with does not depend on what follows it.
proof fn lemma_record_alone(data: Seq<u8>)
    requires
        data.len() >= 4,
    ensures
        record_end(data) <= data.len(),
        entry_of(data.take(record_end(data))) == entry_of(data),
{
    let part = data.take(record_end(data));
    match payload_len(data) {
        Some(n) => {
            assert(part.subrange(0, 4) =~= data.subrange(0, 4));
            assert(covered_part(part, n) =~= covered_part(data, n));
            assert(part.subrange(12 + n, 16 + n) =~= data.subrange(12 + n, 16 + n));
            assert(part.subrange(4, 12) =~= data.subrange(4, 12));
            assert(part.subrange(12, 12 + n) =~= data.subrange(12, 12 + n));
        },
        None => {
            assert(part =~= data);
        },
    }
}

/// Reading the length of a record and then what follows it, as the two steps say, gives
/// the next entry and leads to the place after it.
pub proof fn law_steps_give_the_next_entry(segments: Seq<Seq<u8>>, at: Place)
    requires
        0 <= at.segment < segments.len(),
        0 <= at.pos <= segments[at.segment].len(),
    ensures
        ({
            let rest = segments[at.segment].skip(at.pos);
            let header = rest.take(lesser(4, rest.len() as int));
            match after_header(header) {
                HeaderStep::NextSegment => next_of(segments, at) == next_of(
                    segments,
                    Place { segment: at.segment + 1, pos: 0 },
                ),
                HeaderStep::ReadBody(n) => {
                    let body = rest.subrange(4, lesser(4 + n, rest.len() as int));
                    let entry = match entry_of(header + body) {
                        Ok(entry) => Ok(Some(entry)),
                        Err(e) => Err(e),
                    };
                    next_of(segments, at) == (
                        entry,
                        Place { segment: at.segment, pos: at.pos + 4 + body.len() },
                    )
                },
            }
        }),
{
    let rest = segments[at.segment].skip(at.pos);
    let header = rest.take(lesser(4, rest.len() as int));
    if rest.len() >= 4 {
        assert(header.subrange(0, 4) =~= rest.subrange(0, 4));
        let n = 12 + u32_at(rest, 0);
        let body = rest.subrange(4, lesser(4 + n, rest.len() as int));
        lemma_record_alone(rest);
        assert(header + body =~= rest.take(record_end(rest)));
    }
}

/// Reader that hands out one record at a time.
pub struct StreamingReader {
    segments: Vec<Vec<u8>>,
    current_segment: usize,
    pos: usize,
}

impl StreamingReader {
    /// The contents of the segments.
    pub closed spec fn segments(&self) -> Seq<Seq<u8>> {
        contents(self.segments@)
    }

    /// Where the next record is looked for.
    pub closed spec fn place(&self) -> Place {
        Place { segment: self.current_segment as int, pos: self.pos as int }
    }

    /// The place is in the journal.
    pub closed spec fn wf(&self) -> bool {
        &&& self.current_segment <= self.segments@.len()
        &&& self.current_segment < self.segments@.len() ==> self.pos
            <= self.segments@[self.current_segment as int]@.len()
    }

    /// A reader that stands before the first segment.
    pub fn open(segments: Vec<Vec<u8>>) -> (reader: Self)
        ensures
            reader.wf(),
            reader.segments() == contents(segments@),
            reader.place() == (Place { segment: 0, pos: 0 }),
    {
        StreamingReader { segments, current_segment: 0, pos: 0 }
    }

    /// The next entry; none when all segments are exhausted.
    pub fn next_entry(&mut self) -> (entry: Result<Option<JournalEntry>, JournalError>)
        requires
            old(self).wf(),
        ensures
            final(self).wf(),
            final(self).segments() == old(self).segments(),
            (entry, final(self).place()) == next_of(old(self).segments(), old(self).place()),
    {
        let ghost found = next_of(self.segments(), self.place());
        loop
            invariant
                self.wf(),
                self.segments == old(self).segments,
                found == next_of(old(self).segments(), old(self).place()),
                found == next_of(self.segments(), self.place()),
            decreases self.segments@.len() - self.current_segment,
        {
            if self.current_segment >= self.segments.len() {
                return Ok(None);
            }
            let data: &Vec<u8> = &self.segments[self.current_segment];
            let len: usize = data.len();
            let ghost rest = data@.skip(self.pos as int);
            assert(self.segments()[self.current_segment as int] == data@);
            if len - self.pos < 4 {
                self.current_segment = self.current_segment + 1;
                self.pos = 0;
                continue ;
            }
            let part = slice_subrange(data.as_slice(), self.pos, len);
            assert(part@ =~= rest);
            let body: u64 = body_len(part);
            let record = decode_record(part);
            self.pos = if body <= (len - self.pos - 4) as u64 {
                self.pos + 4 + body as usize
            } else {
                len
            };
            return match record {
                Ok((sequence, command, _)) => Ok(Some(JournalEntry { sequence, command })),
                Err(e) => Err(e),
            };
        }
    }
}

/// The entries from `at` on, or the error of the first bad record.
pub open spec fn stream_from(segments: Seq<Seq<u8>>, at: Place) -> Result<
    Seq<JournalEntry>,
    JournalError,
>
    decreases segments.len() - at.segment, unread(segments, at),
    when 0 <= at.segment && 0 <= at.pos && (at.segment < segments.len() ==> at.pos
        <= segments[at.segment].len())
{
    match next_of(segments, at) {
        (Err(e), _) => Err(e),
        (Ok(None), _) => Ok(Seq::empty()),
        (Ok(Some(entry)), next) => {
            proof {
                lemma_next_place(segments, at);
            }
            after(seq![entry], stream_from(segments, next))
        },
    }
}

/// Number of bytes from `at` to the end of its segment.
pub open spec fn unread(segments: Seq<Seq<u8>>, at: Place) -> int {
    if at.segment < segments.len() {
        segments[at.segment].len() - at.pos
    } else {
        0
    }
}

/// After an entry the place has moved on.
pub proof fn lemma_next_place(segments: Seq<Seq<u8>>, at: Place)
    requires
        0 <= at.segment,
        0 <= at.pos,
        at.segment < segments.len() ==> at.pos <= segments[at.segment].len(),
    ensures
        next_of(segments, at).0 matches Ok(Some(_)) ==> {
            let next = next_of(segments, at).1;
            &&& at.segment <= next.segment < segments.len()
            &&& 0 <= next.pos <= segments[next.segment].len()
            &&& next.segment == at.segment ==> unread(segments, next) < unread(segments, at)
        },
    decreases segments.len() - at.segment,
{
    if at.segment < segments.len() && segments[at.segment].skip(at.pos).len() < 4 {
        lemma_next_place(segments, Place { segment: at.segment + 1, pos: 0 });
    }
}

/// Reading record by record gives the same entries as reading all at once, where
/// all records are good.
pub proof fn law_stream_is_batch(segments: Seq<Seq<u8>>)
    requires
        all_entries(segments) is Ok,
    ensures
        stream_from(segments, Place { segment: 0, pos: 0 }) == all_entries(segments),
{
    if segments.len() > 0 {
        assert(segments[0].skip(0) =~= segments[0]);
        assert(segments.skip(1) =~= segments.drop_first());
    }
    lemma_stream_from(segments, Place { segment: 0, pos: 0 });
}

proof fn lemma_stream_from(segments: Seq<Seq<u8>>, at: Place)
    requires
        0 <= at.segment <= segments.len(),
        0 <= at.pos,
        at.segment < segments.len() ==> at.pos <= segments[at.segment].len(),
        at.segment == segments.len() ==> at.pos == 0,
        at.segment < segments.len() ==> entries_of(segments[at.segment].skip(at.pos)) is Ok,
        at.segment < segments.len() ==> all_entries(segments.skip(at.segment + 1)) is Ok,
    ensures
        at.segment < segments.len() ==> stream_from(segments, at) == after(
            entries_of(segments[at.segment].skip(at.pos))->Ok_0,
            all_entries(segments.skip(at.segment + 1)),
        ),
        at.segment == segments.len() ==> stream_from(segments, at) == Ok::<_, JournalError>(
            Seq::<JournalEntry>::empty(),
        ),
    decreases segments.len() - at.segment, unread(segments, at),
{
    if at.segment < segments.len() {
        let rest = segments[at.segment].skip(at.pos);
        if rest.len() == 0 {
            let next = Place { segment: at.segment + 1, pos: 0 };
            let more = segments.skip(at.segment + 1);
            if next.segment < segments.len() {
                assert(more[0] == segments[next.segment]);
                assert(segments[next.segment].skip(0) =~= segments[next.segment]);
                assert(more.drop_first() =~= segments.skip(next.segment + 1));
                lemma_stream_from(segments, next);
                match all_entries(more) {
                    Ok(entries) => {
                        assert(Seq::<JournalEntry>::empty() + entries =~= entries);
                    },
                    Err(_) => {},
                }
            } else {
                assert(more.len() == 0);
                lemma_stream_from(segments, next);
                assert(Seq::<JournalEntry>::empty() + Seq::<JournalEntry>::empty() =~= Seq::<
                    JournalEntry,
                >::empty());
            }
            assert(next_of(segments, at) == next_of(segments, next));
            assert(stream_from(segments, at) == stream_from(segments, next));
        } else {
            match record_of(rest) {
                Ok((sequence, command, used)) => {
                    let next = Place { segment: at.segment, pos: at.pos + used };
                    assert(segments[at.segment].skip(next.pos) =~= rest.skip(used));
                    lemma_stream_from(segments, next);
                    let entry = JournalEntry { sequence, command };
                    match (entries_of(rest.skip(used)), all_entries(segments.skip(at.segment + 1))) {
                        (Ok(a), Ok(b)) => {
                            assert(seq![entry] + (a + b) =~= (seq![entry] + a) + b);
                        },
                        _ => {},
                    }
                },
                Err(_) => {},
            }
        }
    }
}

/// A segment ends where fewer than the four bytes of a length are left, and nowhere else:
/// with four or more the next record is read there, good or bad.
pub proof fn law_segment_ends_short_of_a_length(segments: Seq<Seq<u8>>, at: Place)
    requires
        0 <= at.segment < segments.len(),
        0 <= at.pos <= segments[at.segment].len(),
    ensures
        segments[at.segment].len() - at.pos < 4 ==> next_of(segments, at) == next_of(
            segments,
            Place { segment: at.segment + 1, pos: 0 },
        ),
        segments[at.segment].len() - at.pos >= 4 ==> {
            let (entry, place) = next_of(segments, at);
            &&& place.segment == at.segment
            &&& at.pos < place.pos <= segments[at.segment].len()
            &&& match record_of(segments[at.segment].skip(at.pos)) {
                Ok((sequence, command, used)) => {
                    &&& entry == Ok::<_, JournalError>(Some(JournalEntry { sequence, command }))
                    &&& place.pos == at.pos + used
                },
                Err(e) => entry == Err::<Option<JournalEntry>, _>(e),
            }
        },
{
}

} // verus!
