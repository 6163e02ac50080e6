//! The header that starts every record in a ring buffer.

use vstd::prelude::*;

use crate::bytes;
use crate::bytes::{
    read_u16_at, read_u32_at, read_u64_at, write_u16_at, write_u32_at, write_u64_at,
};

verus! {

/// Size in bytes of an encoded [`RecordHeader`].
pub const RECORD_HEADER_SIZE: usize = 16;

/// Every record occupies a multiple of this many bytes.
pub const RECORD_ALIGN: usize = 8;

/// Event id of a context switch record.
pub const EVENT_CONTEXT_SWITCH: u32 = 1;

/// Event id of a trace mark begin record.
pub const EVENT_TRACE_MARK_BEGIN: u32 = 2;

/// Event id of a trace mark end record.
pub const EVENT_TRACE_MARK_END: u32 = 3;

/// Identifies the binary record kind stored in a trace ring buffer.
#[derive(Clone, Copy, Debug, Eq, PartialEq, Structural)]
pub enum RecordKind {
    /// Point-in-time event.
    Instant,
    /// Synchronous duration begin event.
    DurationBegin,
    /// Synchronous duration end event.
    DurationEnd,
    /// Numeric counter sample.
    Counter,
    /// Metadata record used to describe tasks, names, or exporter context.
    Metadata,
    /// CPU context switch event.
    ContextSwitch,
    /// Padding record used to wrap from the end of a ring buffer to the start.
    Padding,
}

impl RecordKind {
    /// The byte stored for this kind.
    pub open spec fn spec_code(self) -> u8 {
        match self {
            RecordKind::Instant => 1,
            RecordKind::DurationBegin => 2,
            RecordKind::DurationEnd => 3,
            RecordKind::Counter => 4,
            RecordKind::Metadata => 5,
            RecordKind::ContextSwitch => 6,
            RecordKind::Padding => 255,
        }
    }

    /// The kind that a stored byte stands for, if any.
    pub open spec fn of_code(code: u8) -> Option<RecordKind> {
        if code == 1 {
            Some(RecordKind::Instant)
        } else if code == 2 {
            Some(RecordKind::DurationBegin)
        } else if code == 3 {
            Some(RecordKind::DurationEnd)
        } else if code == 4 {
            Some(RecordKind::Counter)
        } else if code == 5 {
            Some(RecordKind::Metadata)
        } else if code == 6 {
            Some(RecordKind::ContextSwitch)
        } else if code == 255 {
            Some(RecordKind::Padding)
        } else {
            None
        }
    }

    /// Returns the byte stored for this kind.
    pub fn code(self) -> (code: u8)
        ensures
            code == self.spec_code(),
        opens_invariants none
        no_unwind
    {
        match self {
            RecordKind::Instant => 1,
            RecordKind::DurationBegin => 2,
            RecordKind::DurationEnd => 3,
            RecordKind::Counter => 4,
            RecordKind::Metadata => 5,
            RecordKind::ContextSwitch => 6,
            RecordKind::Padding => 255,
        }
    }
}

/// Fixed binary header that prefixes every record in a ring buffer.
///
/// The header is encoded in little-endian byte order when written to a buffer.
#[derive(Clone, Copy, Debug, Eq, PartialEq)]
pub struct RecordHeader {
    /// Total aligned record length in bytes, including this header and padding.
    pub len: u16,
    /// Semantic kind of the record payload.
    pub kind: RecordKind,
    /// Record flags reserved for future format extensions.
    pub flags: u8,
    /// Stable event identifier used by decoders and exporters.
    pub event_id: u32,
    /// Event timestamp in nanoseconds.
    pub timestamp: u64,
}

/// The header that the first sixteen bytes of `s` encode, if their kind is known.
pub open spec fn header_of(s: Seq<u8>) -> Option<RecordHeader> {
    match RecordKind::of_code(s[2]) {
        None => None,
        Some(kind) => Some(
            RecordHeader {
                len: bytes::u16_at(s, 0),
                kind,
                flags: s[3],
                event_id: bytes::u32_at(s, 4),
                timestamp: bytes::u64_at(s, 8),
            },
        ),
    }
}

/// The encoding of a header: length, kind, clear flags, event id, timestamp.
pub open spec fn header_bytes(len: u16, kind: RecordKind, event_id: u32, timestamp: u64) -> Seq<
    u8,
> {
    bytes::le_bytes(len as nat, 2) + seq![kind.spec_code(), 0u8] + bytes::le_bytes(
        event_id as nat,
        4,
    ) + bytes::le_bytes(timestamp as nat, 8)
}

/// A header is sixteen bytes long and decodes to what was encoded.
pub proof fn law_header_round_trip(len: u16, kind: RecordKind, event_id: u32, timestamp: u64)
    ensures
        header_bytes(len, kind, event_id, timestamp).len() == RECORD_HEADER_SIZE,
        header_of(header_bytes(len, kind, event_id, timestamp)) == Some(
            RecordHeader { len, kind, flags: 0, event_id, timestamp },
        ),
{
    broadcast use bytes::lemma_le_bytes_len;

    bytes::lemma_int_round_trip();
    let s = header_bytes(len, kind, event_id, timestamp);
    assert(s.subrange(0, 2) =~= bytes::le_bytes(len as nat, 2));
    assert(s.subrange(4, 8) =~= bytes::le_bytes(event_id as nat, 4));
    assert(s.subrange(8, 16) =~= bytes::le_bytes(timestamp as nat, 8));
    assert(s[2] == kind.spec_code());
    assert(s[3] == 0);
}

/// Writes a header at `at`.
pub fn encode_header(
    out: &mut [u8],
    at: usize,
    len: u16,
    kind: RecordKind,
    event_id: u32,
    timestamp: u64,
)
    requires
        at + RECORD_HEADER_SIZE <= old(out)@.len(),
    ensures
        final(out)@ == bytes::overwrite(
            old(out)@,
            at as int,
            header_bytes(len, kind, event_id, timestamp),
        ),
    opens_invariants none
    no_unwind
{
    broadcast use bytes::lemma_le_bytes_len;

    let ghost start = out@;
    assert(at + RECORD_HEADER_SIZE <= out.len());
    write_u16_at(out, at, len);
    out[at + 2] = kind.code();
    out[at + 3] = 0;
    write_u32_at(out, at + 4, event_id);
    write_u64_at(out, at + 8, timestamp);
    assert(out@ =~= bytes::overwrite(
        start,
        at as int,
        header_bytes(len, kind, event_id, timestamp),
    ));
}

/// Decodes the header at the start of `bytes`.
///
/// Returns `None` when `bytes` is shorter than a header or the kind byte is
/// not a known kind.
pub fn decode_header(bytes: &[u8]) -> (header: Option<RecordHeader>)
    ensures
        header == (if bytes@.len() < RECORD_HEADER_SIZE {
            None
        } else {
            header_of(bytes@)
        }),
{
    if bytes.len() < RECORD_HEADER_SIZE {
        return None;
    }
    let len = read_u16_at(bytes, 0);
    let kind = match bytes[2] {
        1 => RecordKind::Instant,
        2 => RecordKind::DurationBegin,
        3 => RecordKind::DurationEnd,
        4 => RecordKind::Counter,
        5 => RecordKind::Metadata,
        6 => RecordKind::ContextSwitch,
        255 => RecordKind::Padding,
        _ => {
            return None;
        },
    };
    let event_id = read_u32_at(bytes, 4);
    let timestamp = read_u64_at(bytes, 8);
    Some(RecordHeader { len, kind, flags: bytes[3], event_id, timestamp })
}

/// Where the fields of a header stand, and which byte stands for each kind.
pub proof fn law_header_layout(len: u16, kind: RecordKind, event_id: u32, timestamp: u64)
    ensures
        ({
            let s = header_bytes(len, kind, event_id, timestamp);
            &&& s.len() == 16
            &&& bytes::u16_at(s, 0) == len
            &&& s[2] == (match kind {
                RecordKind::Instant => 1u8,
                RecordKind::DurationBegin => 2u8,
                RecordKind::DurationEnd => 3u8,
                RecordKind::Counter => 4u8,
                RecordKind::Metadata => 5u8,
                RecordKind::ContextSwitch => 6u8,
                RecordKind::Padding => 255u8,
            })
            &&& s[3] == 0
            &&& bytes::u32_at(s, 4) == event_id
            &&& bytes::u64_at(s, 8) == timestamp
        }),
{
    law_header_round_trip(len, kind, event_id, timestamp);
    broadcast use bytes::lemma_le_bytes_len;

    let s = header_bytes(len, kind, event_id, timestamp);
    assert(s[2] == kind.spec_code());
}

/// Sixteen bytes are a header just if the third is the byte of a kind, and its
/// fields are read from where they stand.
pub proof fn law_header_is_read(s: Seq<u8>)
    requires
        s.len() >= 16,
    ensures
        header_of(s) is Some <==> (1 <= s[2] <= 6 || s[2] == 255),
        header_of(s) matches Some(header) ==> {
            &&& header.len == bytes::u16_at(s, 0)
            &&& header.flags == s[3]
            &&& header.event_id == bytes::u32_at(s, 4)
            &&& header.timestamp == bytes::u64_at(s, 8)
            &&& header.kind == RecordKind::Padding <==> s[2] == 255
            &&& header_bytes(header.len, header.kind, header.event_id, header.timestamp)[2] == s[2]
        },
{
    if let Some(header) = header_of(s) {
        law_header_layout(header.len, header.kind, header.event_id, header.timestamp);
    }
}

} // verus!
