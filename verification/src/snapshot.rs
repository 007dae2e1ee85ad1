//! Snapshot metadata and the rule that binds a snapshot to the journal it
//! is replayed against.

use vstd::prelude::*;
use vstd::bytes::{spec_u16_to_le_bytes, spec_u32_to_le_bytes, spec_u64_to_le_bytes, spec_u16_from_le_bytes, spec_u32_from_le_bytes, spec_u64_from_le_bytes};
use crate::codec::{crc32, spec_crc32, put_u16, put_u32, put_u64, get_u16, get_u32, get_u64, lemma_le_round_trips};

verus! {

/// Version of the snapshot format.
pub const SNAPSHOT_VERSION: u16 = 1;

/// Length of a snapshot's header: magic, version, reserved, journal
/// sequence, payload length and payload checksum.
pub const SNAPSHOT_HEADER_LEN: usize = 28;

/// The four bytes a snapshot starts with: `SES1`.
pub open spec fn snapshot_magic() -> Seq<u8> {
    seq![0x53u8, 0x45u8, 0x53u8, 0x31u8]
}

/// A snapshot of `payload` taken at `journal_sequence`: the magic, the
/// version, two reserved zero bytes, the journal sequence, the payload's
/// length and its CRC-32, all little-endian, then the payload.
pub open spec fn spec_snapshot_bytes(journal_sequence: u64, payload: Seq<u8>) -> Seq<u8> {
    snapshot_magic() + spec_u16_to_le_bytes(SNAPSHOT_VERSION) + spec_u16_to_le_bytes(0u16)
        + spec_u64_to_le_bytes(journal_sequence) + spec_u64_to_le_bytes(payload.len() as u64)
        + spec_u32_to_le_bytes(spec_crc32(payload)) + payload
}

/// The version field of a snapshot's header.
pub open spec fn header_version(b: Seq<u8>) -> u16 {
    spec_u16_from_le_bytes(b.subrange(4, 6))
}

/// The journal sequence field of a snapshot's header.
pub open spec fn header_sequence(b: Seq<u8>) -> u64 {
    spec_u64_from_le_bytes(b.subrange(8, 16))
}

/// The payload length field of a snapshot's header.
pub open spec fn header_payload_len(b: Seq<u8>) -> u64 {
    spec_u64_from_le_bytes(b.subrange(16, 24))
}

/// The checksum field of a snapshot's header.
pub open spec fn header_checksum(b: Seq<u8>) -> u32 {
    spec_u32_from_le_bytes(b.subrange(24, 28))
}

#[derive(Debug)]
pub enum SnapshotError {
    Io(std::io::Error),
    InvalidHeader(&'static str),
    UnsupportedVersion(u16),
    Truncated,
    ChecksumMismatch { expected: u32, actual: u32 },
    InvalidData(&'static str),
    JournalSequenceMismatch { snapshot: u64, journal: u64 },
}

#[derive(Debug, Clone, Copy, PartialEq, Eq, Structural)]
pub struct SnapshotMeta {
    pub journal_sequence: u64,
    pub event_count: u64,
}

pub struct ReplaySnapshot;

impl ReplaySnapshot {
    /// Frames `payload` as a snapshot taken at `journal_sequence`.
    pub fn frame(journal_sequence: u64, payload: &[u8]) -> (r: Vec<u8>)
        requires
            payload@.len() + SNAPSHOT_HEADER_LEN <= usize::MAX,
        ensures
            r@ == spec_snapshot_bytes(journal_sequence, payload@),
    {
        let checksum = crc32(payload);
        let mut out: Vec<u8> = Vec::new();
        out.push(0x53u8);
        out.push(0x45u8);
        out.push(0x53u8);
        out.push(0x31u8);
        put_u16(&mut out, SNAPSHOT_VERSION);
        put_u16(&mut out, 0u16);
        put_u64(&mut out, journal_sequence);
        put_u64(&mut out, payload.len() as u64);
        put_u32(&mut out, checksum);
        let ghost head = out@;
        let mut i: usize = 0;
        while i < payload.len()
            invariant
                i <= payload@.len(),
                out@ == head + payload@.subrange(0, i as int),
            decreases payload@.len() - i,
        {
            out.push(payload[i]);
            i = i + 1;
            proof {
                assert(payload@.subrange(0, i as int) =~= payload@.subrange(0, i - 1).push(payload@[i - 1]));
            }
        }
        proof {
            assert(payload@.subrange(0, payload@.len() as int) =~= payload@);
            assert(seq![0x53u8].push(0x45u8).push(0x53u8).push(0x31u8) =~= snapshot_magic());
        }
        out
    }

    /// Checks a snapshot's header and checksum and returns the journal
    /// sequence it was taken at. Refuses a snapshot shorter than its header
    /// or than its header says, one that does not start with the magic, one
    /// of another version, and one whose payload fails its checksum.
    pub fn unframe(bytes: &[u8]) -> (r: Result<u64, SnapshotError>)
        ensures
            bytes@.len() < SNAPSHOT_HEADER_LEN ==> r matches Err(SnapshotError::Truncated),
            bytes@.len() >= SNAPSHOT_HEADER_LEN && bytes@.subrange(0, 4) != snapshot_magic()
                ==> r matches Err(SnapshotError::InvalidHeader(_)),
            bytes@.len() >= SNAPSHOT_HEADER_LEN && bytes@.subrange(0, 4) == snapshot_magic()
                && header_version(bytes@) != SNAPSHOT_VERSION
                ==> (r matches Err(SnapshotError::UnsupportedVersion(v)) && v == header_version(bytes@)),
            bytes@.len() >= SNAPSHOT_HEADER_LEN && bytes@.subrange(0, 4) == snapshot_magic()
                && header_version(bytes@) == SNAPSHOT_VERSION
                && SNAPSHOT_HEADER_LEN + header_payload_len(bytes@) != bytes@.len()
                ==> r matches Err(SnapshotError::Truncated),
            bytes@.len() >= SNAPSHOT_HEADER_LEN && bytes@.subrange(0, 4) == snapshot_magic()
                && header_version(bytes@) == SNAPSHOT_VERSION
                && SNAPSHOT_HEADER_LEN + header_payload_len(bytes@) == bytes@.len()
                ==> (if header_checksum(bytes@) == spec_crc32(bytes@.subrange(28, bytes@.len() as int)) {
                    r == Ok::<u64, SnapshotError>(header_sequence(bytes@))
                } else {
                    (r matches Err(SnapshotError::ChecksumMismatch { expected, actual })
                        && expected == header_checksum(bytes@) && actual == spec_crc32(bytes@.subrange(28, bytes@.len() as int)))
                }),
    {
        let n = bytes.len();
        if n < SNAPSHOT_HEADER_LEN {
            return Err(SnapshotError::Truncated);
        }
        if !(bytes[0] == 0x53u8 && bytes[1] == 0x45u8 && bytes[2] == 0x53u8 && bytes[3] == 0x31u8) {
            proof {
                if bytes@.subrange(0, 4) == snapshot_magic() {
                    assert(bytes@.subrange(0, 4)[0] == bytes@[0]);
                    assert(bytes@.subrange(0, 4)[1] == bytes@[1]);
                    assert(bytes@.subrange(0, 4)[2] == bytes@[2]);
                    assert(bytes@.subrange(0, 4)[3] == bytes@[3]);
                }
            }
            return Err(SnapshotError::InvalidHeader("bad magic"));
        }
        proof {
            assert(bytes@.subrange(0, 4) =~= snapshot_magic());
        }
        let version = get_u16(bytes, 4);
        if version != SNAPSHOT_VERSION {
            return Err(SnapshotError::UnsupportedVersion(version));
        }
        let journal_sequence = get_u64(bytes, 8);
        let payload_len = get_u64(bytes, 16);
        if payload_len != (n - SNAPSHOT_HEADER_LEN) as u64 {
            return Err(SnapshotError::Truncated);
        }
        let expected = get_u32(bytes, 24);
        let payload = vstd::slice::slice_subrange(bytes, SNAPSHOT_HEADER_LEN, n);
        let actual = crc32(payload);
        if expected != actual {
            return Err(SnapshotError::ChecksumMismatch { expected, actual });
        }
        Ok(journal_sequence)
    }

    /// A snapshot taken at journal sequence `s` can only be continued by a
    /// journal that has reached `s`; a journal behind it is refused.
    pub fn validate_journal_boundary(meta: SnapshotMeta, journal_sequence: u64) -> (r: Result<(), SnapshotError>)
        ensures
            journal_sequence >= meta.journal_sequence <==> r is Ok,
            r matches Err(e) ==> (e matches SnapshotError::JournalSequenceMismatch { snapshot, journal }
                && snapshot == meta.journal_sequence && journal == journal_sequence),
    {
        if journal_sequence < meta.journal_sequence {
            return Err(SnapshotError::JournalSequenceMismatch { snapshot: meta.journal_sequence, journal: journal_sequence });
        }
        Ok(())
    }
}

/// A framed snapshot passes its own checks: its header carries the magic,
/// the version, the payload's length and checksum and the journal
/// sequence it was framed with.
pub proof fn lemma_snapshot_round_trip(journal_sequence: u64, payload: Seq<u8>)
    requires
        payload.len() <= u64::MAX,
    ensures
        ({
            let b = spec_snapshot_bytes(journal_sequence, payload);
            &&& b.len() == SNAPSHOT_HEADER_LEN + payload.len()
            &&& b.subrange(0, 4) == snapshot_magic()
            &&& header_version(b) == SNAPSHOT_VERSION
            &&& header_payload_len(b) == payload.len()
            &&& header_checksum(b) == spec_crc32(b.subrange(28, b.len() as int))
            &&& header_sequence(b) == journal_sequence
        }),
{
    lemma_le_round_trips();
    let b = spec_snapshot_bytes(journal_sequence, payload);
    let v = spec_u16_to_le_bytes(SNAPSHOT_VERSION);
    let z = spec_u16_to_le_bytes(0u16);
    let s = spec_u64_to_le_bytes(journal_sequence);
    let l = spec_u64_to_le_bytes(payload.len() as u64);
    let c = spec_u32_to_le_bytes(spec_crc32(payload));
    assert(b.subrange(0, 4) =~= snapshot_magic());
    assert(b.subrange(4, 6) =~= v);
    assert(b.subrange(8, 16) =~= s);
    assert(b.subrange(16, 24) =~= l);
    assert(b.subrange(24, 28) =~= c);
    assert(b.subrange(28, b.len() as int) =~= payload);
}

} // verus!
