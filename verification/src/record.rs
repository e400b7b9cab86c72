//! Framed journal records: length, sequence, command and checksum.
use crate::bytes::{le_bytes, push_u32, push_u64, read_u32, read_u64};
use crate::codec::{
    command_bytes, command_of, decode, encode, lemma_command_len, lemma_decode_encode, lemma_u32_at,
    lemma_u64_at, u32_at, u64_at, JournalError,
};
use crate::types::Command;
use vstd::prelude::*;
use vstd::slice::slice_subrange;

verus! {

/// Bytes of a record besides its payload: length, sequence and checksum.
pub const FRAME_BYTES: usize = 16;

/// `rest` divided by the CRC-32 polynomial of IEEE 802.3, lowest bit first, for `bits`
/// bits.
pub open spec fn crc32_divided(rest: u32, bits: nat) -> u32
    decreases bits,
{
    if bits == 0 {
        rest
    } else if rest & 1 == 1 {
        crc32_divided((rest >> 1) ^ 0xedb8_8320, (bits - 1) as nat)
    } else {
        crc32_divided(rest >> 1, (bits - 1) as nat)
    }
}

/// The remainder after `bytes`, all bits of which are set at the start.
pub open spec fn crc32_remainder(bytes: Seq<u8>) -> u32
    decreases bytes.len(),
{
    if bytes.len() == 0 {
        0xffff_ffff
    } else {
        crc32_divided(crc32_remainder(bytes.drop_last()) ^ (bytes.last() as u32), 8)
    }
}

/// The CRC-32 checksum of `bytes`: the remainder with every bit inverted.
pub open spec fn crc32_of(bytes: Seq<u8>) -> u32 {
    crc32_remainder(bytes) ^ 0xffff_ffff
}

/// `crc32fast::hash`: the CRC-32 checksum of `bytes`, that of IEEE 802.3 with reflected
/// bits, start value and final inversion of all bits.
#[verifier::external_body]
fn crc32(bytes: &[u8]) -> (crc: u32)
    ensures
        crc == crc32_of(bytes@),
{
    crc32fast::hash(bytes)
}

/// What the checksum of a record covers: its sequence and its payload.
pub open spec fn covered_bytes(sequence: u64, cmd: Command) -> Seq<u8> {
    le_bytes(sequence as int, 8) + command_bytes(cmd)
}

/// A record with checksum `crc`: payload length, sequence, payload, checksum.
pub open spec fn framed(sequence: u64, cmd: Command, crc: u32) -> Seq<u8> {
    le_bytes(command_bytes(cmd).len() as int, 4) + covered_bytes(sequence, cmd) + le_bytes(
        crc as int,
        4,
    )
}

/// The record of a command.
#[verifier::opaque]
pub open spec fn record_bytes(sequence: u64, cmd: Command) -> Seq<u8> {
    framed(sequence, cmd, crc32_of(covered_bytes(sequence, cmd)))
}

/// The payload length of the record that `data` start with, where all of the record
/// is there.
pub open spec fn payload_len(data: Seq<u8>) -> Option<int> {
    if data.len() >= 4 && data.len() >= FRAME_BYTES + u32_at(data, 0) {
        Some(u32_at(data, 0) as int)
    } else {
        None
    }
}

/// The bytes that the checksum of the record with payload length `n` covers.
pub open spec fn covered_part(data: Seq<u8>, n: int) -> Seq<u8> {
    data.subrange(4, 12 + n)
}

/// The sequence and the command of the record that `data` start with, and the
/// length of the record, given that the bytes covered have the checksum `crc`.
/// Incomplete data and data that are no command are invalid; a stored checksum
/// other than `crc` is a mismatch.
pub open spec fn record_given(data: Seq<u8>, crc: u32) -> Result<(u64, Command, int), JournalError> {
    match payload_len(data) {
        None => Err(JournalError::InvalidData),
        Some(n) => if u32_at(data, 12 + n) != crc {
            Err(JournalError::CrcMismatch)
        } else {
            match command_of(data.subrange(12, 12 + n)) {
                None => Err(JournalError::InvalidData),
                Some(cmd) => Ok((u64_at(data, 4), cmd, FRAME_BYTES + n)),
            }
        },
    }
}

/// The record that `data` start with.
pub open spec fn record_of(data: Seq<u8>) -> Result<(u64, Command, int), JournalError> {
    match payload_len(data) {
        None => Err(JournalError::InvalidData),
        Some(n) => record_given(data, crc32_of(covered_part(data, n))),
    }
}

/// Frames a command with a checksum.
pub fn frame_record(sequence: u64, cmd: &Command, crc: u32) -> (record: Vec<u8>)
    ensures
        record@ == framed(sequence, *cmd, crc),
{
    let payload: Vec<u8> = encode(cmd);
    proof {
        lemma_command_len(*cmd);
    }
    let mut record: Vec<u8> = Vec::with_capacity(FRAME_BYTES + payload.len());
    push_u32(&mut record, payload.len() as u32);
    push_u64(&mut record, sequence);
    record.extend_from_slice(payload.as_slice());
    push_u32(&mut record, crc);
    assert(record@ =~= framed(sequence, *cmd, crc));
    record
}

/// The record of a command.
pub fn encode_record(sequence: u64, cmd: &Command) -> (record: Vec<u8>)
    ensures
        record@ == record_bytes(sequence, *cmd),
{
    proof {
        reveal(record_bytes);
    }
    let mut covered: Vec<u8> = Vec::with_capacity(72);
    push_u64(&mut covered, sequence);
    let payload: Vec<u8> = encode(cmd);
    covered.extend_from_slice(payload.as_slice());
    assert(covered@ =~= covered_bytes(sequence, *cmd));
    let crc: u32 = crc32(covered.as_slice());
    frame_record(sequence, cmd, crc)
}

/// The payload length of the record that `data` start with; `InvalidData` where
/// some of the record is missing.
pub fn read_payload_len(data: &[u8]) -> (n: Result<usize, JournalError>)
    ensures
        match payload_len(data@) {
            Some(len) => n matches Ok(k) && k == len && FRAME_BYTES + len <= usize::MAX,
            None => n == Err::<usize, _>(JournalError::InvalidData),
        },
{
    let len: usize = data.len();
    if len < 4 {
        return Err(JournalError::InvalidData);
    }
    let n: u32 = read_u32(data, 0);
    if len < FRAME_BYTES || ((len - FRAME_BYTES) as u64) < n as u64 {
        return Err(JournalError::InvalidData);
    }
    Ok(n as usize)
}

/// The record that `data` start with, given the checksum of the bytes covered.
pub fn open_record(data: &[u8], crc: u32) -> (record: Result<(u64, Command, usize), JournalError>)
    ensures
        match record_given(data@, crc) {
            Ok((sequence, cmd, used)) => record matches Ok((s, c, u)) && s == sequence && c == cmd && u
                == used,
            Err(e) => record == Err::<(u64, Command, usize), _>(e),
        },
{
    let n: usize = match read_payload_len(data) {
        Ok(n) => n,
        Err(e) => {
            return Err(e);
        },
    };
    if read_u32(data, 12 + n) != crc {
        return Err(JournalError::CrcMismatch);
    }
    match decode(slice_subrange(data, 12, 12 + n)) {
        Ok(cmd) => Ok((read_u64(data, 4), cmd, FRAME_BYTES + n)),
        Err(e) => Err(e),
    }
}

/// The record that `data` start with: sequence, command and length.
pub fn decode_record(data: &[u8]) -> (record: Result<(u64, Command, usize), JournalError>)
    ensures
        match record_of(data@) {
            Ok((sequence, cmd, used)) => record matches Ok((s, c, u)) && s == sequence && c == cmd && u
                == used,
            Err(e) => record == Err::<(u64, Command, usize), _>(e),
        },
{
    match read_payload_len(data) {
        Ok(n) => {
            let crc: u32 = crc32(slice_subrange(data, 4, 12 + n));
            open_record(data, crc)
        },
        Err(e) => Err(e),
    }
}

/// Where the parts of a record stand.
proof fn lemma_record_parts(sequence: u64, cmd: Command, crc: u32, tail: Seq<u8>)
    ensures
        ({
            let all = framed(sequence, cmd, crc) + tail;
            let n = command_bytes(cmd).len() as int;
            &&& framed(sequence, cmd, crc).len() == FRAME_BYTES + n
            &&& u32_at(all, 0) == n
            &&& u64_at(all, 4) == sequence
            &&& u32_at(all, 12 + n) == crc
            &&& covered_part(all, n) == covered_bytes(sequence, cmd)
            &&& all.subrange(12, 12 + n) == command_bytes(cmd)
        }),
{
    lemma_command_len(cmd);
    let payload = command_bytes(cmd);
    let n = payload.len();
    let a = le_bytes(n as int, 4);
    let b = le_bytes(sequence as int, 8);
    let c = le_bytes(crc as int, 4);
    let all = framed(sequence, cmd, crc) + tail;
    lemma_u32_at(Seq::empty(), n as u32, b + payload + c + tail);
    assert(all =~= Seq::<u8>::empty() + a + (b + payload + c + tail));
    lemma_u64_at(a, sequence, payload + c + tail);
    assert(all =~= a + b + (payload + c + tail));
    lemma_u32_at(a + (b + payload), crc, tail);
    assert(all =~= a + (b + payload) + c + tail);
    assert(covered_part(all, n as int) =~= b + payload);
    assert(all.subrange(12, 12 + n as int) =~= payload);
}

/// Length of a record.
pub proof fn lemma_record_len(sequence: u64, cmd: Command)
    ensures
        record_bytes(sequence, cmd).len() == FRAME_BYTES + command_bytes(cmd).len(),
{
    reveal(record_bytes);
    lemma_record_parts(sequence, cmd, crc32_of(covered_bytes(sequence, cmd)), Seq::empty());
}

/// Reading a record that was written gives back its sequence and its command, and
/// uses exactly its bytes, whatever follows it.
pub proof fn lemma_record_round_trip(sequence: u64, cmd: Command, tail: Seq<u8>)
    ensures
        record_of(record_bytes(sequence, cmd) + tail) == Ok::<_, JournalError>(
            (sequence, cmd, record_bytes(sequence, cmd).len() as int),
        ),
        record_bytes(sequence, cmd).len() >= FRAME_BYTES,
{
    reveal(record_bytes);
    let crc = crc32_of(covered_bytes(sequence, cmd));
    lemma_record_parts(sequence, cmd, crc, tail);
    lemma_decode_encode(cmd, Seq::empty());
    assert(command_bytes(cmd) + Seq::<u8>::empty() =~= command_bytes(cmd));
}

/// A record that was cut short is invalid, wherever it was cut.
pub proof fn lemma_record_cut(sequence: u64, cmd: Command, k: int)
    requires
        0 <= k < record_bytes(sequence, cmd).len(),
    ensures
        record_of(record_bytes(sequence, cmd).take(k)) == Err::<(u64, Command, int), _>(
            JournalError::InvalidData,
        ),
{
    reveal(record_bytes);
    let record = record_bytes(sequence, cmd);
    let part = record.take(k);
    let crc = crc32_of(covered_bytes(sequence, cmd));
    lemma_record_parts(sequence, cmd, crc, Seq::empty());
    assert(record + Seq::<u8>::empty() =~= record);
    if k >= 4 {
        assert(part.subrange(0, 4) =~= record.subrange(0, 4));
    }
}

/// Where the parts of a record stand: four bytes of length, eight of sequence, the command,
/// and four of the checksum of sequence and command.
pub proof fn law_record_layout(sequence: u64, cmd: Command)
    ensures
        ({
            let record = record_bytes(sequence, cmd);
            let n = command_bytes(cmd).len() as int;
            &&& record.len() == 16 + n
            &&& u32_at(record, 0) == n
            &&& u64_at(record, 4) == sequence
            &&& record.subrange(12, 12 + n) == command_bytes(cmd)
            &&& u32_at(record, 12 + n) == crc32_of(record.subrange(4, 12 + n))
        }),
{
    reveal(record_bytes);
    let crc = crc32_of(covered_bytes(sequence, cmd));
    lemma_record_parts(sequence, cmd, crc, Seq::empty());
    assert(framed(sequence, cmd, crc) + Seq::<u8>::empty() =~= framed(sequence, cmd, crc));
}

/// When data start with a record and when they do not: data shorter than the sixteen bytes
/// of a frame and the command that it announces are invalid, data with another checksum
/// than the stored one are a mismatch, and data with the stored one are invalid only where
/// they hold no command.
pub proof fn law_bad_records(data: Seq<u8>)
    requires
        data.len() >= 4,
    ensures
        ({
            let n = u32_at(data, 0) as int;
            if data.len() < 16 + n {
                record_of(data) == Err::<(u64, Command, int), _>(JournalError::InvalidData)
            } else if u32_at(data, 12 + n) != crc32_of(data.subrange(4, 12 + n)) {
                record_of(data) == Err::<(u64, Command, int), _>(JournalError::CrcMismatch)
            } else if command_of(data.subrange(12, 12 + n)) is None {
                record_of(data) == Err::<(u64, Command, int), _>(JournalError::InvalidData)
            } else {
                &&& record_of(data) is Ok
                &&& record_of(data)->Ok_0.0 == u64_at(data, 4)
                &&& Some(record_of(data)->Ok_0.1) == command_of(data.subrange(12, 12 + n))
                &&& record_of(data)->Ok_0.2 == 16 + n
            }
        }),
{
}

} // verus!
