//! Placing records in journal segments.
use crate::codec::command_bytes;
use crate::journal::contents;
use crate::record::{encode_record, lemma_record_len, record_bytes, FRAME_BYTES};
use crate::segments::{
    index_of_name, is_last_segment, last_segment, lemma_name_round_trip, name_of_index, segment_name,
};
use crate::types::Command;
use vstd::prelude::*;
use vstd::slice::slice_to_vec;

verus! {

/// Where records go.
#[derive(Debug, Clone, Copy, PartialEq, Eq, Structural)]
pub enum WriterMode {
    /// All records go to one file.
    Single,
    /// Records go to numbered segments of limited size.
    Segmented { max_segment_bytes: u64, current_segment_index: u64, current_segment_size: u64 },
}

/// Where the next record goes.
#[derive(Debug, Clone, Copy, PartialEq, Eq, Structural)]
pub enum Placement {
    /// After the last record.
    Here,
    /// At the start of a new segment with this index.
    NewSegment(u64),
}

/// What is to be written.
pub struct Append {
    pub placement: Placement,
    pub record: Vec<u8>,
}

impl WriterMode {
    /// Whether a record of `len` bytes starts a new segment: where the current one is
    /// not empty and has no room for the record.
    pub open spec fn rotates(self, len: int) -> bool {
        self matches WriterMode::Segmented {
            max_segment_bytes,
            current_segment_size,
            ..
        } && current_segment_size > 0 && current_segment_size + len > max_segment_bytes
    }

    /// Where a record of `len` bytes goes.
    pub open spec fn placement(self, len: int) -> Placement {
        match self {
            WriterMode::Segmented { current_segment_index, .. } if self.rotates(len) => {
                Placement::NewSegment((current_segment_index + 1) as u64)
            },
            _ => Placement::Here,
        }
    }

    /// The mode once it is decided where a record of `len` bytes goes: a new segment
    /// takes the next index.
    pub open spec fn placing(self, len: int) -> WriterMode {
        match self {
            WriterMode::Segmented {
                max_segment_bytes,
                current_segment_index,
                current_segment_size,
            } if self.rotates(len) => WriterMode::Segmented {
                max_segment_bytes,
                current_segment_index: (current_segment_index + 1) as u64,
                current_segment_size,
            },
            _ => self,
        }
    }

    /// The mode once a new segment is open.
    pub open spec fn opened(self) -> WriterMode {
        match self {
            WriterMode::Single => self,
            WriterMode::Segmented { max_segment_bytes, current_segment_index, .. } => {
                WriterMode::Segmented {
                    max_segment_bytes,
                    current_segment_index,
                    current_segment_size: 0,
                }
            },
        }
    }

    /// The mode once `len` bytes are written.
    pub open spec fn grown(self, len: int) -> WriterMode {
        match self {
            WriterMode::Single => self,
            WriterMode::Segmented {
                max_segment_bytes,
                current_segment_index,
                current_segment_size,
            } => WriterMode::Segmented {
                max_segment_bytes,
                current_segment_index,
                current_segment_size: (current_segment_size + len) as u64,
            },
        }
    }

    /// The mode after a record of `len` bytes: it is decided where the record goes, a
    /// new segment is opened where it goes to one, and it is written.
    pub open spec fn extended(self, len: int) -> WriterMode {
        if self.rotates(len) {
            self.placing(len).opened().grown(len)
        } else {
            self.placing(len).grown(len)
        }
    }

    /// Whether index and size stay in range when a record of `len` bytes is placed.
    pub open spec fn has_room(self, len: int) -> bool {
        self matches WriterMode::Segmented { current_segment_index, current_segment_size, .. } ==> {
            &&& current_segment_size + len <= u64::MAX
            &&& self.rotates(len) ==> current_segment_index < u64::MAX
        }
    }
}

/// A segment is over its limit only where a single record is.
pub proof fn lemma_segment_limit(mode: WriterMode, len: int)
    requires
        mode.has_room(len),
        0 < len,
    ensures
        mode.extended(len) matches WriterMode::Segmented {
            max_segment_bytes,
            current_segment_size,
            ..
        } ==> current_segment_size <= max_segment_bytes || current_segment_size == len,
{
}

/// Where a record of `len` bytes goes, and what the segments then hold. Where it fits into
/// the current segment, or that is empty, it goes there; only where it does not fit does
/// it start a new segment, which has the next index and holds nothing else. The limit
/// never changes, and a writer to one file never leaves it.
pub proof fn law_segments_fill_up(mode: WriterMode, len: int)
    requires
        mode.has_room(len),
        0 < len,
    ensures
        mode is Single ==> mode.placement(len) is Here && mode.extended(len) is Single,
        mode matches WriterMode::Segmented {
            max_segment_bytes: max,
            current_segment_index: index,
            current_segment_size: size,
        } ==> {
            let fits = size == 0 || size + len <= max;
            &&& fits <==> mode.placement(len) is Here
            &&& !fits ==> mode.placement(len)->NewSegment_0 == index + 1
            &&& mode.extended(len) is Segmented
            &&& mode.extended(len)->max_segment_bytes == max
            &&& fits ==> mode.extended(len)->current_segment_index == index
            &&& fits ==> mode.extended(len)->current_segment_size == size + len
            &&& !fits ==> mode.extended(len)->current_segment_index == index + 1
            &&& !fits ==> mode.extended(len)->current_segment_size == len
        },
{
}

/// Append-only journal writer.
pub struct JournalWriter {
    mode: WriterMode,
}

impl JournalWriter {
    /// Where records go.
    pub closed spec fn view(&self) -> WriterMode {
        self.mode
    }

    /// A writer to one file.
    pub fn open() -> (writer: Self)
        ensures
            writer@ == WriterMode::Single,
    {
        JournalWriter { mode: WriterMode::Single }
    }

    /// The index and the name of the segment to go on with: the last one among the
    /// names of a directory's files, or the first where there is none.
    pub fn segment_to_open(names: &Vec<Vec<u8>>) -> (segment: (u64, Vec<u8>))
        ensures
            index_of_name(segment.1@) == Some(segment.0),
            ({
                let all = contents(names@);
                if exists|i: int|
                    0 <= i < all.len() && index_of_name(#[trigger] all[i]) is Some {
                    exists|i: int| #[trigger] is_last_segment(all, i) && segment.1@ == all[i]
                } else {
                    segment.0 == 1 && segment.1@ == name_of_index(1)
                }
            }),
    {
        match last_segment(names) {
            Some((at, index)) => {
                assert(index_of_name(contents(names@)[at as int]) is Some);
                (index, slice_to_vec(names[at].as_slice()))
            },
            None => {
                proof {
                    lemma_name_round_trip(1);
                }
                (1, segment_name(1))
            },
        }
    }

    /// A writer to segments of at most `max_segment_bytes`, which goes on with a
    /// segment that holds `size` bytes.
    pub fn open_segmented(index: u64, size: u64, max_segment_bytes: u64) -> (writer: Self)
        ensures
            writer@ == (WriterMode::Segmented {
                max_segment_bytes: if max_segment_bytes > 1 {
                    max_segment_bytes
                } else {
                    1
                },
                current_segment_index: index,
                current_segment_size: size,
            }),
    {
        let limit: u64 = if max_segment_bytes > 1 {
            max_segment_bytes
        } else {
            1
        };
        JournalWriter {
            mode: WriterMode::Segmented {
                max_segment_bytes: limit,
                current_segment_index: index,
                current_segment_size: size,
            },
        }
    }

    /// Whether index and size stay in range when a record of `len` bytes is placed.
    pub fn has_room(&self, len: u64) -> (room: bool)
        ensures
            room == self@.has_room(len as int),
    {
        match self.mode {
            WriterMode::Single => true,
            WriterMode::Segmented {
                max_segment_bytes,
                current_segment_index,
                current_segment_size,
            } => match current_segment_size.checked_add(len) {
                None => false,
                Some(size) => current_segment_index < u64::MAX || current_segment_size == 0 || size
                    <= max_segment_bytes,
            },
        }
    }

    /// Says where a record of `len` bytes goes.
    pub fn append_raw(&mut self, len: u64) -> (placement: Placement)
        requires
            old(self)@.has_room(len as int),
        ensures
            placement == old(self)@.placement(len as int),
            final(self)@ == old(self)@.placing(len as int),
    {
        match self.mode {
            WriterMode::Single => Placement::Here,
            WriterMode::Segmented {
                max_segment_bytes,
                current_segment_index,
                current_segment_size,
            } => {
                let next_size: u64 = current_segment_size + len;
                if current_segment_size > 0 && next_size > max_segment_bytes {
                    let index: u64 = current_segment_index + 1;
                    self.mode =
                    WriterMode::Segmented {
                        max_segment_bytes,
                        current_segment_index: index,
                        current_segment_size,
                    };
                    Placement::NewSegment(index)
                } else {
                    Placement::Here
                }
            },
        }
    }

    /// Notes that a new segment is open.
    pub fn segment_opened(&mut self)
        ensures
            final(self)@ == old(self)@.opened(),
    {
        match self.mode {
            WriterMode::Single => {},
            WriterMode::Segmented { max_segment_bytes, current_segment_index, .. } => {
                self.mode =
                WriterMode::Segmented {
                    max_segment_bytes,
                    current_segment_index,
                    current_segment_size: 0,
                };
            },
        }
    }

    /// Notes that `len` bytes are written.
    pub fn written(&mut self, len: u64)
        requires
            old(self)@ matches WriterMode::Segmented { current_segment_size, .. }
                ==> current_segment_size + len <= u64::MAX,
        ensures
            final(self)@ == old(self)@.grown(len as int),
    {
        match self.mode {
            WriterMode::Single => {},
            WriterMode::Segmented {
                max_segment_bytes,
                current_segment_index,
                current_segment_size,
            } => {
                self.mode =
                WriterMode::Segmented {
                    max_segment_bytes,
                    current_segment_index,
                    current_segment_size: current_segment_size + len,
                };
            },
        }
    }

    /// The record of a command, and where it goes.
    pub fn append(&mut self, sequence: u64, cmd: &Command) -> (append: Append)
        requires
            old(self)@.has_room(FRAME_BYTES + command_bytes(*cmd).len()),
        ensures
            append.record@ == record_bytes(sequence, *cmd),
            append.placement == old(self)@.placement(append.record@.len() as int),
            final(self)@ == old(self)@.placing(append.record@.len() as int),
    {
        proof {
            lemma_record_len(sequence, *cmd);
        }
        let record: Vec<u8> = encode_record(sequence, cmd);
        let placement: Placement = self.append_raw(record.len() as u64);
        Append { placement, record }
    }
}

} // verus!
