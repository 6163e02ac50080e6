//! Per-CPU ring buffers.
//!
//! A ring holds variable-length records in writing order. A record never wraps:
//! when the bytes up to the end of the ring are too few for it, they are filled
//! with a padding record, or with zeros if not even a header fits, and the
//! record goes to the front. If that would take more than the whole ring, the ring
//! is emptied and starts over at the front. The ring is modeled as the sequence of its entries
//! from the oldest to the newest.

use vstd::prelude::*;

use crate::bytes;
use crate::bytes::{align_up, copy_first, fill_zero};
use crate::payload::RecordView;
use crate::record;
use crate::record::{
    decode_header, encode_header, RecordHeader, RecordKind, RECORD_ALIGN, RECORD_HEADER_SIZE,
};
use crate::stream;

verus! {

/// Controls what happens when a per-CPU ring buffer has insufficient free space.
#[derive(Clone, Copy, Debug, Eq, PartialEq, Structural)]
pub enum BufferMode {
    /// Drop oldest records until the new record fits.
    Overwrite,
    /// Reject the new record when the buffer is full.
    StopOnFull,
}

/// Result of an append attempt on the trace hot path.
#[derive(Clone, Copy, Debug, Eq, PartialEq)]
pub enum AppendStatus {
    /// The record was appended to the selected per-CPU buffer.
    Written,
    /// The record was not written; the contained reason explains why.
    Dropped(DropReason),
}

/// Reason why a record append was dropped.
#[derive(Clone, Copy, Debug, Eq, PartialEq)]
pub enum DropReason {
    /// The platform named a CPU outside the configured range.
    InvalidCpu,
    /// The target CPU was already appending a record.
    Reentrant,
    /// The target buffer was full and the session uses [`BufferMode::StopOnFull`].
    BufferFull,
    /// The encoded record is larger than the temporary payload space or buffer.
    RecordTooLarge,
}

/// Smallest usable ring buffer, in bytes.
pub const MIN_RING_BUFFER_SIZE: usize = 32;

/// Per-CPU session-local ring buffer state.
///
/// `CpuState` tracks cursor positions, sequence numbers, and drop counters for
/// one CPU in one trace session.
#[derive(Clone, Copy, Debug, Eq, PartialEq)]
pub struct CpuState {
    /// Next byte offset to write in this CPU's ring buffer.
    pub write_pos: usize,
    /// Oldest readable byte offset in this CPU's ring buffer.
    pub read_pos: usize,
    /// Number of bytes currently occupied by readable records.
    pub used: usize,
    /// Monotonic per-CPU sequence number assigned to records.
    pub per_cpu_seq: u64,
    /// Number of records dropped for this CPU.
    pub dropped: u64,
    /// Number of records dropped because of same-CPU reentrant appends.
    pub reentrant_dropped: u64,
    /// Whether this CPU is currently appending a record.
    pub writer_active: bool,
}

impl CpuState {
    /// State with empty cursors and zeroed counters.
    pub open spec fn fresh() -> CpuState {
        CpuState {
            write_pos: 0,
            read_pos: 0,
            used: 0,
            per_cpu_seq: 0,
            dropped: 0,
            reentrant_dropped: 0,
            writer_active: false,
        }
    }

    /// Creates empty per-CPU session state.
    pub fn new() -> (state: Self)
        ensures
            state == CpuState::fresh(),
    {
        CpuState {
            write_pos: 0,
            read_pos: 0,
            used: 0,
            per_cpu_seq: 0,
            dropped: 0,
            reentrant_dropped: 0,
            writer_active: false,
        }
    }

    /// Empties the cursors and clears the counters.
    pub fn reset(&mut self)
        ensures
            *final(self) == CpuState::fresh(),
    {
        *self = CpuState::new();
    }

    /// Returns the total number of dropped records for this CPU.
    pub fn dropped(&self) -> (count: u64)
        ensures
            count == self.dropped,
    {
        self.dropped
    }

    /// Returns the number of records dropped because of same-CPU reentrancy.
    pub fn reentrant_dropped(&self) -> (count: u64)
        ensures
            count == self.reentrant_dropped,
    {
        self.reentrant_dropped
    }

    /// Marks this CPU as being, or not being, in the middle of an append.
    pub fn set_writer_active_for_test(&mut self, active: bool)
        ensures
            *final(self) == (CpuState { writer_active: active, ..*old(self) }),
    {
        self.writer_active = active;
    }
}

impl Default for CpuState {
    fn default() -> (state: Self)
        ensures
            state == CpuState::fresh(),
    {
        CpuState::new()
    }
}

/// One step of a saturating counter.
pub open spec fn bumped(count: u64) -> u64 {
    if count == u64::MAX {
        count
    } else {
        (count + 1) as u64
    }
}

/// One entry of a ring.
pub ghost enum Entry {
    /// A record.
    Record(RecordView),
    /// A padding record of the given length.
    Padding(int),
    /// The last bytes of the ring, too few for a header.
    Gap(int),
}

impl Entry {
    /// Number of bytes that the entry occupies.
    pub open spec fn len(self) -> int {
        match self {
            Entry::Record(record) => record.header.len as int,
            Entry::Padding(len) => len,
            Entry::Gap(len) => len,
        }
    }
}

/// The entry that starts at `pos` of `ring`, if a well-formed one lies there
/// within the next `left` bytes.
pub open spec fn entry_at(ring: Seq<u8>, pos: int, left: int) -> Option<Entry> {
    let cap = ring.len() as int;
    if cap - pos < RECORD_HEADER_SIZE {
        if cap - pos <= left {
            Some(Entry::Gap(cap - pos))
        } else {
            None
        }
    } else {
        match record::header_of(ring.subrange(pos, pos + RECORD_HEADER_SIZE)) {
            None => None,
            Some(header) => {
                let len = header.len as int;
                if !(RECORD_HEADER_SIZE <= len <= left && len <= cap - pos) {
                    None
                } else if header.kind == RecordKind::Padding && len == cap - pos {
                    Some(Entry::Padding(len))
                } else if pos % RECORD_ALIGN as int != 0 || len % RECORD_ALIGN as int != 0 {
                    None
                } else if header.kind == RecordKind::Padding {
                    Some(Entry::Padding(len))
                } else {
                    Some(
                        Entry::Record(
                            RecordView {
                                header,
                                payload: ring.subrange(pos + RECORD_HEADER_SIZE, pos + len),
                            },
                        ),
                    )
                }
            },
        }
    }
}

/// Well-formed entries, one behind the other, fill the `used` bytes from `pos` on.
pub open spec fn chained(ring: Seq<u8>, pos: int, used: int) -> bool
    decreases used,
{
    if used <= 0 || !(0 <= pos < ring.len()) {
        used == 0
    } else {
        match entry_at(ring, pos, used) {
            None => false,
            Some(entry) => chained(
                ring,
                stream::advance(pos, entry.len(), ring.len() as int),
                used - entry.len(),
            ),
        }
    }
}

/// The entries in the `used` bytes from `pos` on, oldest first.
pub open spec fn entries(ring: Seq<u8>, pos: int, used: int) -> Seq<Entry>
    decreases used,
{
    if used <= 0 || !(0 <= pos < ring.len()) {
        Seq::empty()
    } else {
        match entry_at(ring, pos, used) {
            None => Seq::empty(),
            Some(entry) => seq![entry] + entries(
                ring,
                stream::advance(pos, entry.len(), ring.len() as int),
                used - entry.len(),
            ),
        }
    }
}

/// Number of bytes that a sequence of entries occupies.
pub open spec fn total_len(items: Seq<Entry>) -> int
    decreases items.len(),
{
    if items.len() == 0 {
        0
    } else {
        items[0].len() + total_len(items.drop_first())
    }
}

/// The records among a sequence of entries.
pub open spec fn records_of(items: Seq<Entry>) -> Seq<RecordView>
    decreases items.len(),
{
    if items.len() == 0 {
        Seq::empty()
    } else {
        let rest = records_of(items.drop_first());
        match items[0] {
            Entry::Record(record) => seq![record] + rest,
            _ => rest,
        }
    }
}

/// A drop counter after the entries were dropped: each one that has a header
/// counts.
pub open spec fn dropped_after(count: u64, items: Seq<Entry>) -> u64
    decreases items.len(),
{
    if items.len() == 0 {
        count
    } else {
        dropped_after(
            if items[0] is Gap {
                count
            } else {
                bumped(count)
            },
            items.drop_first(),
        )
    }
}

/// One CPU: its state and the bytes of its ring.
pub ghost struct CpuRing {
    /// Cursors and counters.
    pub state: CpuState,
    /// Ring buffer bytes.
    pub ring: Seq<u8>,
}

impl CpuRing {
    /// Size of the ring in bytes.
    pub open spec fn cap(self) -> int {
        self.ring.len() as int
    }

    /// The cursors lie in the ring.
    pub open spec fn cursors_ok(self) -> bool {
        &&& MIN_RING_BUFFER_SIZE <= self.cap() <= usize::MAX
        &&& self.state.write_pos < self.cap()
        &&& self.state.read_pos < self.cap()
        &&& self.state.used <= self.cap()
    }

    /// The invariant of a ring: its entries fill the readable bytes, and the
    /// write position follows them, aligned.
    pub open spec fn wf(self) -> bool {
        &&& self.cursors_ok()
        &&& self.state.write_pos == stream::advance(
            self.state.read_pos as int,
            self.state.used as int,
            self.cap(),
        )
        &&& self.state.write_pos as int % RECORD_ALIGN as int == 0
        &&& chained(self.ring, self.state.read_pos as int, self.state.used as int)
    }

    /// The entries of the ring, oldest first.
    pub open spec fn entries(self) -> Seq<Entry> {
        entries(self.ring, self.state.read_pos as int, self.state.used as int)
    }

    /// The records that a reader finds in the ring, oldest first.
    pub open spec fn records(self) -> Seq<RecordView> {
        stream::read_records(self.ring, self.state.read_pos as int, self.state.used as int)
    }
}

/// The length of the oldest readable entry, as its header gives it; a header
/// that cannot be right counts for one alignment unit.
pub open spec fn oldest_len(state: CpuState, ring: Seq<u8>) -> int {
    let pos = state.read_pos as int;
    let used = state.used as int;
    match record::header_of(ring.subrange(pos, pos + RECORD_HEADER_SIZE)) {
        Some(header) if 0 < header.len <= used && header.len <= ring.len() - pos => header.len as int,
        _ => if used < RECORD_ALIGN {
            used
        } else {
            RECORD_ALIGN as int
        },
    }
}

/// The state after the oldest entry was dropped.
pub open spec fn without_oldest(state: CpuState, ring: Seq<u8>) -> CpuState {
    let cap = ring.len() as int;
    let tail = cap - state.read_pos;
    if state.used == 0 {
        state
    } else if tail < RECORD_HEADER_SIZE {
        CpuState {
            read_pos: 0,
            used: if state.used <= tail {
                0
            } else {
                (state.used - tail) as usize
            },
            ..state
        }
    } else {
        let len = oldest_len(state, ring);
        CpuState {
            read_pos: stream::advance(state.read_pos as int, len, cap) as usize,
            used: (state.used - len) as usize,
            dropped: bumped(state.dropped),
            ..state
        }
    }
}

/// The state after the oldest entries were dropped, one by one, until `needed`
/// bytes of the ring are free.
pub open spec fn with_room(state: CpuState, ring: Seq<u8>, needed: int) -> CpuState
    decreases state.used,
{
    let next = without_oldest(state, ring);
    if ring.len() - state.used >= needed || next.used >= state.used {
        state
    } else {
        with_room(next, ring, needed)
    }
}

/// Number of entries that are dropped until `needed` bytes are free.
pub open spec fn evictions(state: CpuState, ring: Seq<u8>, needed: int) -> nat
    decreases state.used,
{
    let next = without_oldest(state, ring);
    if ring.len() - state.used >= needed || next.used >= state.used {
        0
    } else {
        1 + evictions(next, ring, needed)
    }
}

/// Aligned length of a record with a payload of `len` bytes.
pub open spec fn record_len(len: nat) -> int {
    bytes::aligned(RECORD_HEADER_SIZE + len, RECORD_ALIGN as int)
}

/// The bytes of a record: header, payload, zeros up to the aligned length.
pub open spec fn record_bytes(
    kind: RecordKind,
    event_id: u32,
    timestamp: u64,
    payload: Seq<u8>,
) -> Seq<u8> {
    let total = record_len(payload.len());
    record::header_bytes(total as u16, kind, event_id, timestamp) + payload + bytes::zeros(
        (total - RECORD_HEADER_SIZE - payload.len()) as nat,
    )
}

/// The record that a reader finds where [`record_bytes`] were written.
pub open spec fn record_view(
    kind: RecordKind,
    event_id: u32,
    timestamp: u64,
    payload: Seq<u8>,
) -> RecordView {
    let total = record_len(payload.len());
    RecordView {
        header: RecordHeader { len: total as u16, kind, flags: 0, event_id, timestamp },
        payload: payload + bytes::zeros((total - RECORD_HEADER_SIZE - payload.len()) as nat),
    }
}

/// The bytes that fill `len` bytes up to the end of a ring.
pub open spec fn padding_bytes(len: int) -> Seq<u8> {
    if len >= RECORD_HEADER_SIZE {
        record::header_bytes(len as u16, RecordKind::Padding, 0, 0) + bytes::zeros(
            (len - RECORD_HEADER_SIZE) as nat,
        )
    } else {
        bytes::zeros(len as nat)
    }
}

/// Number of bytes to skip before a record of `total` bytes: none if it fits
/// before the end of the ring, else all that are left there.
pub open spec fn padding_len(write_pos: int, cap: int, total: int) -> int {
    if cap - write_pos < total {
        cap - write_pos
    } else {
        0
    }
}

/// A record of `total` bytes and the padding in front of it exceed the ring.
pub open spec fn cramped(write_pos: int, cap: int, total: int) -> bool {
    padding_len(write_pos, cap, total) + total > cap
}

/// Number of bytes that must be free for a record of `total` bytes: those of the
/// record and of the padding in front of it, or all bytes of the ring if these
/// are more than it has.
pub open spec fn room_needed(write_pos: int, cap: int, total: int) -> int {
    if cramped(write_pos, cap, total) {
        cap
    } else {
        padding_len(write_pos, cap, total) + total
    }
}

/// Number of padding bytes that are written in front of a record of `total`
/// bytes. An emptied ring starts over at the front and needs none.
pub open spec fn lead_len(write_pos: int, cap: int, total: int) -> int {
    if cramped(write_pos, cap, total) {
        0
    } else {
        padding_len(write_pos, cap, total)
    }
}

/// The state in which a record of `total` bytes is written: the oldest entries
/// have made room, and a ring that had to be emptied starts over at the front.
pub open spec fn prepared(cpu: CpuRing, total: int) -> CpuState {
    let at = cpu.state.write_pos as int;
    let room = with_room(cpu.state, cpu.ring, room_needed(at, cpu.cap(), total));
    if cramped(at, cpu.cap(), total) {
        CpuState { read_pos: 0, write_pos: 0, ..room }
    } else {
        room
    }
}

/// The reason why a record with a payload of `len` bytes is not put into a ring,
/// if it is not.
///
/// A record is too large if it exceeds the ring. When the free bytes are too few
/// for it and the padding in front of it, the mode may forbid that others make
/// room.
pub open spec fn put_error(cpu: CpuRing, mode: BufferMode, len: nat) -> Option<DropReason> {
    let cap = cpu.cap();
    let total = record_len(len);
    if total > u16::MAX || total > cap {
        Some(DropReason::RecordTooLarge)
    } else if cap - cpu.state.used < padding_len(cpu.state.write_pos as int, cap, total) + total
        && mode == BufferMode::StopOnFull {
        Some(DropReason::BufferFull)
    } else {
        None
    }
}

/// Where a record of `total` bytes starts.
pub open spec fn put_start(cpu: CpuRing, total: int) -> int {
    if lead_len(cpu.state.write_pos as int, cpu.cap(), total) > 0 {
        0
    } else {
        prepared(cpu, total).write_pos as int
    }
}

/// The state after a record of `total` bytes was put into a ring.
pub open spec fn put_state(cpu: CpuRing, total: int) -> CpuState {
    let ready = prepared(cpu, total);
    let lead = lead_len(cpu.state.write_pos as int, cpu.cap(), total);
    CpuState {
        write_pos: stream::advance(put_start(cpu, total), total, cpu.cap()) as usize,
        used: (ready.used + lead + total) as usize,
        ..ready
    }
}

/// The bytes `b`, in which a ring starts at `base`, after the padding and the
/// record were written.
pub open spec fn put_bytes(
    b: Seq<u8>,
    base: int,
    cpu: CpuRing,
    kind: RecordKind,
    event_id: u32,
    timestamp: u64,
    payload: Seq<u8>,
) -> Seq<u8> {
    let total = record_len(payload.len());
    let at = cpu.state.write_pos as int;
    bytes::overwrite(
        bytes::overwrite(b, base + at, padding_bytes(lead_len(at, cpu.cap(), total))),
        base + put_start(cpu, total),
        record_bytes(kind, event_id, timestamp, payload),
    )
}

/// Putting a record into a ring that is part of other bytes changes just the ring.
pub proof fn lemma_put_bytes_at(
    b: Seq<u8>,
    base: int,
    cpu: CpuRing,
    mode: BufferMode,
    kind: RecordKind,
    event_id: u32,
    timestamp: u64,
    payload: Seq<u8>,
)
    requires
        0 <= base,
        base + cpu.cap() <= b.len(),
        b.subrange(base, base + cpu.cap()) == cpu.ring,
        cpu.cursors_ok(),
        put_error(cpu, mode, payload.len()) is None,
    ensures
        put_bytes(b, base, cpu, kind, event_id, timestamp, payload) == bytes::overwrite(
            b,
            base,
            put_bytes(cpu.ring, 0, cpu, kind, event_id, timestamp, payload),
        ),
        put_bytes(cpu.ring, 0, cpu, kind, event_id, timestamp, payload).len() == cpu.cap(),
{
    broadcast use bytes::lemma_le_bytes_len;

    lemma_placement(cpu, mode, payload.len());
    lemma_record_len(payload.len());
    let whole = put_bytes(b, base, cpu, kind, event_id, timestamp, payload);
    let part = put_bytes(cpu.ring, 0, cpu, kind, event_id, timestamp, payload);
    assert forall|k: int| 0 <= k < cpu.cap() implies #[trigger] cpu.ring[k] == b[base + k] by {
        assert(b.subrange(base, base + cpu.cap())[k] == b[base + k]);
    }
    assert(whole =~= bytes::overwrite(b, base, part));
}

/// A CPU after a record was put into its ring, or the reason why it was not.
///
/// When the free bytes are too few for the record and the padding in front of it,
/// the oldest entries make room. When even an empty ring has too few bytes for
/// both, all entries are dropped, and the record goes to the front.
pub open spec fn ring_put(
    cpu: CpuRing,
    mode: BufferMode,
    kind: RecordKind,
    event_id: u32,
    timestamp: u64,
    payload: Seq<u8>,
) -> Result<CpuRing, DropReason> {
    match put_error(cpu, mode, payload.len()) {
        Some(reason) => Err(reason),
        None => Ok(
            CpuRing {
                state: put_state(cpu, record_len(payload.len())),
                ring: put_bytes(cpu.ring, 0, cpu, kind, event_id, timestamp, payload),
            },
        ),
    }
}

/// Dropping the oldest entry frees bytes and keeps the cursors in the ring.
proof fn lemma_without_oldest(state: CpuState, ring: Seq<u8>)
    requires
        (CpuRing { state, ring }).cursors_ok(),
    ensures
        (CpuRing { state: without_oldest(state, ring), ring }).cursors_ok(),
        state.used > 0 ==> without_oldest(state, ring).used < state.used,
        state.used == 0 ==> without_oldest(state, ring) == state,
        ({
            let next = without_oldest(state, ring);
            state == (CpuState {
                read_pos: state.read_pos,
                used: state.used,
                dropped: state.dropped,
                ..next
            })
        }),
{
}

/// Dropping entries until there is room leaves room, and changes nothing but
/// the read cursor, the readable length and the drop counter.
proof fn lemma_with_room(state: CpuState, ring: Seq<u8>, needed: int)
    requires
        (CpuRing { state, ring }).cursors_ok(),
        needed <= ring.len(),
    ensures
        (CpuRing { state: with_room(state, ring, needed), ring }).cursors_ok(),
        ring.len() - with_room(state, ring, needed).used >= needed,
        ({
            let room = with_room(state, ring, needed);
            state == (CpuState {
                read_pos: state.read_pos,
                used: state.used,
                dropped: state.dropped,
                ..room
            })
        }),
    decreases state.used,
{
    lemma_without_oldest(state, ring);
    let next = without_oldest(state, ring);
    if ring.len() - state.used < needed {
        lemma_with_room(next, ring, needed);
    }
}

/// Drops the oldest entry of a ring.
pub fn drop_oldest_record(state: &mut CpuState, buffer: &[u8])
    requires
        (CpuRing { state: *old(state), ring: buffer@ }).cursors_ok(),
    ensures
        *final(state) == without_oldest(*old(state), buffer@),
{
    if state.used == 0 {
        return;
    }
    let cap: usize = buffer.len();
    if cap - state.read_pos < RECORD_HEADER_SIZE {
        let skipped: usize = cap - state.read_pos;
        state.read_pos = 0;
        state.used = state.used.saturating_sub(skipped);
        return;
    }
    let fallback: usize = if state.used < RECORD_ALIGN {
        state.used
    } else {
        RECORD_ALIGN
    };
    let len: usize = match decode_header(
        &buffer[state.read_pos..state.read_pos + RECORD_HEADER_SIZE],
    ) {
        Some(header) => {
            let len = header.len as usize;
            if len > 0 && len <= state.used && len <= cap - state.read_pos {
                len
            } else {
                fallback
            }
        },
        None => fallback,
    };
    proof {
        stream::lemma_wrap(state.read_pos + len, cap as int);
    }
    state.read_pos = (state.read_pos + len) % cap;
    state.used = state.used.saturating_sub(len);
    state.dropped = state.dropped.saturating_add(1);
}

/// Makes `needed` bytes of a ring free, or says why it cannot.
pub fn ensure_space(
    state: &mut CpuState,
    buffer: &[u8],
    mode: BufferMode,
    needed: usize,
) -> (result: Result<(), DropReason>)
    requires
        (CpuRing { state: *old(state), ring: buffer@ }).cursors_ok(),
    ensures
        result == (if needed > buffer@.len() {
            Err::<(), DropReason>(DropReason::RecordTooLarge)
        } else if buffer@.len() - old(state).used < needed && mode == BufferMode::StopOnFull {
            Err(DropReason::BufferFull)
        } else {
            Ok(())
        }),
        result is Ok ==> *final(state) == with_room(*old(state), buffer@, needed as int),
        result is Err ==> *final(state) == *old(state),
{
    let cap: usize = buffer.len();
    if needed > cap {
        return Err(DropReason::RecordTooLarge);
    }
    if cap - state.used >= needed {
        return Ok(());
    }
    if mode == BufferMode::StopOnFull {
        return Err(DropReason::BufferFull);
    }
    while cap - state.used < needed
        invariant
            cap == buffer@.len(),
            needed <= cap,
            (CpuRing { state: *state, ring: buffer@ }).cursors_ok(),
            with_room(*state, buffer@, needed as int) == with_room(
                *old(state),
                buffer@,
                needed as int,
            ),
        decreases state.used,
    {
        proof {
            lemma_without_oldest(*state, buffer@);
        }
        drop_oldest_record(state, buffer);
    }
    Ok(())
}

/// Fills `padding` bytes from `at` on.
pub fn write_padding(buffer: &mut [u8], at: usize, padding: usize)
    requires
        at + padding <= old(buffer)@.len(),
        padding <= u16::MAX,
    ensures
        final(buffer)@ == bytes::overwrite(
            old(buffer)@,
            at as int,
            padding_bytes(padding as int),
        ),
    opens_invariants none
    no_unwind
{
    let ghost before = buffer@;
    assert(at + padding <= buffer.len());
    if padding >= RECORD_HEADER_SIZE {
        proof {
            record::law_header_round_trip(padding as u16, RecordKind::Padding, 0, 0);
        }
        encode_header(buffer, at, padding as u16, RecordKind::Padding, 0, 0);
        fill_zero(buffer, at + RECORD_HEADER_SIZE, at + padding);
    } else {
        fill_zero(buffer, at, at + padding);
    }
    assert(buffer@ =~= bytes::overwrite(before, at as int, padding_bytes(padding as int)));
}

/// An aligned length is large enough, and larger by less than the alignment.
pub proof fn lemma_record_len(len: nat)
    ensures
        RECORD_HEADER_SIZE + len <= record_len(len) < RECORD_HEADER_SIZE + len + RECORD_ALIGN,
        record_len(len) % RECORD_ALIGN as int == 0,
{
}

/// Where a record goes in a ring.
#[derive(Clone, Copy, Debug, Eq, PartialEq)]
pub struct Placement {
    /// Where the padding in front of the record starts.
    pub padding_at: usize,
    /// Number of padding bytes.
    pub padding: usize,
    /// Where the record starts.
    pub start: usize,
    /// Aligned length of the record.
    pub total: usize,
}

impl Placement {
    /// The place of a record of `total` bytes in a ring.
    pub open spec fn of(cpu: CpuRing, total: int) -> Placement {
        Placement {
            padding_at: cpu.state.write_pos,
            padding: lead_len(cpu.state.write_pos as int, cpu.cap(), total) as usize,
            start: put_start(cpu, total) as usize,
            total: total as usize,
        }
    }
}

/// The place of a record lies in the ring.
pub proof fn lemma_placement(cpu: CpuRing, mode: BufferMode, len: nat)
    requires
        cpu.cursors_ok(),
        put_error(cpu, mode, len) is None,
    ensures
        ({
            let total = record_len(len);
            let at = cpu.state.write_pos as int;
            let lead = lead_len(at, cpu.cap(), total);
            &&& 0 <= lead <= u16::MAX
            &&& at + lead <= cpu.cap()
            &&& 0 <= put_start(cpu, total)
            &&& put_start(cpu, total) + total <= cpu.cap()
            &&& RECORD_HEADER_SIZE + len <= total <= u16::MAX
        }),
{
    let total = record_len(len);
    lemma_record_len(len);
    lemma_with_room(
        cpu.state,
        cpu.ring,
        room_needed(cpu.state.write_pos as int, cpu.cap(), total),
    );
}

/// Makes room for a record with a payload of `len` bytes and moves the cursors
/// behind it, or says why it cannot.
pub fn plan_record(state: &mut CpuState, buffer: &[u8], mode: BufferMode, len: usize) -> (result:
    Result<Placement, DropReason>)
    requires
        (CpuRing { state: *old(state), ring: buffer@ }).cursors_ok(),
    ensures
        ({
            let cpu = CpuRing { state: *old(state), ring: buffer@ };
            match put_error(cpu, mode, len as nat) {
                None => {
                    &&& result == Ok::<Placement, DropReason>(
                        Placement::of(cpu, record_len(len as nat)),
                    )
                    &&& *final(state) == put_state(cpu, record_len(len as nat))
                },
                Some(reason) => {
                    &&& result == Err::<Placement, DropReason>(reason)
                    &&& *final(state) == *old(state)
                },
            }
        }),
{
    let ghost cpu = CpuRing { state: *state, ring: buffer@ };
    let cap: usize = buffer.len();
    proof {
        lemma_record_len(len as nat);
    }
    if len > 0xffff {
        return Err(DropReason::RecordTooLarge);
    }
    let total: usize = align_up(RECORD_HEADER_SIZE + len, RECORD_ALIGN);
    if total > 0xffff || total > cap {
        return Err(DropReason::RecordTooLarge);
    }
    let padding_at: usize = state.write_pos;
    let to_end: usize = cap - padding_at;
    let mut padding: usize = if to_end < total {
        to_end
    } else {
        0
    };
    proof {
        lemma_with_room(
            cpu.state,
            cpu.ring,
            room_needed(cpu.state.write_pos as int, cpu.cap(), total as int),
        );
    }
    if padding > cap - total {
        if mode == BufferMode::StopOnFull {
            return Err(DropReason::BufferFull);
        }
        ensure_space(state, buffer, mode, cap)?;
        state.read_pos = 0;
        state.write_pos = 0;
        padding = 0;
    } else {
        ensure_space(state, buffer, mode, padding + total)?;
    }
    if padding > 0 {
        state.used = state.used + padding;
        state.write_pos = 0;
    }
    let start: usize = state.write_pos;
    proof {
        stream::lemma_wrap(start + total, cap as int);
    }
    state.write_pos = (state.write_pos + total) % cap;
    state.used = state.used + total;
    Ok(Placement { padding_at, padding, start, total })
}

/// Writes the padding and the record that were placed in the ring at `base`.
pub fn write_placed(
    buffer: &mut [u8],
    base: usize,
    place: Placement,
    kind: RecordKind,
    event_id: u32,
    timestamp: u64,
    payload: &[u8],
    len: usize,
)
    requires
        len <= payload@.len(),
        place.total == record_len(len as nat),
        place.total <= u16::MAX,
        place.padding <= u16::MAX,
        base + place.padding_at + place.padding <= old(buffer)@.len(),
        base + place.start + place.total <= old(buffer)@.len(),
    ensures
        final(buffer)@ == bytes::overwrite(
            bytes::overwrite(
                old(buffer)@,
                base + place.padding_at,
                padding_bytes(place.padding as int),
            ),
            base + place.start,
            record_bytes(kind, event_id, timestamp, payload@.take(len as int)),
        ),
    opens_invariants none
    no_unwind
{
    assert(base + place.padding_at + place.padding <= buffer.len());
    assert(base + place.start + place.total <= buffer.len());
    write_padding(buffer, base + place.padding_at, place.padding);
    let ghost padded = buffer@;
    let start: usize = base + place.start;
    proof {
        lemma_record_len(len as nat);
        record::law_header_round_trip(place.total as u16, kind, event_id, timestamp);
    }
    encode_header(buffer, start, place.total as u16, kind, event_id, timestamp);
    copy_first(buffer, start + RECORD_HEADER_SIZE, payload, len);
    fill_zero(buffer, start + RECORD_HEADER_SIZE + len, start + place.total);
    assert(buffer@ =~= bytes::overwrite(
        padded,
        start as int,
        record_bytes(kind, event_id, timestamp, payload@.take(len as int)),
    ));
}

/// Puts one encoded record into a ring.
pub fn append_encoded_record(
    state: &mut CpuState,
    buffer: &mut [u8],
    mode: BufferMode,
    kind: RecordKind,
    event_id: u32,
    timestamp: u64,
    payload: &[u8],
) -> (result: Result<(), DropReason>)
    requires
        (CpuRing { state: *old(state), ring: old(buffer)@ }).cursors_ok(),
    ensures
        match ring_put(
            CpuRing { state: *old(state), ring: old(buffer)@ },
            mode,
            kind,
            event_id,
            timestamp,
            payload@,
        ) {
            Ok(cpu) => {
                &&& result == Ok::<(), DropReason>(())
                &&& *final(state) == cpu.state
                &&& final(buffer)@ == cpu.ring
            },
            Err(reason) => {
                &&& result == Err::<(), DropReason>(reason)
                &&& *final(state) == *old(state)
                &&& final(buffer)@ == old(buffer)@
            },
        },
{
    let ghost cpu = CpuRing { state: *state, ring: buffer@ };
    let len: usize = payload.len();
    let place = plan_record(state, buffer, mode, len)?;
    proof {
        lemma_placement(cpu, mode, len as nat);
        assert(payload@.take(len as int) =~= payload@);
    }
    write_placed(buffer, 0, place, kind, event_id, timestamp, payload, len);
    Ok(())
}

/// Byte `i` of a ring of `cap` bytes is one of the `used` bytes from `pos` on.
pub open spec fn live(pos: int, used: int, cap: int, i: int) -> bool {
    if pos + used <= cap {
        pos <= i < pos + used
    } else {
        i >= pos || i < pos + used - cap
    }
}

/// An entry depends on its own bytes alone.
proof fn lemma_entry_frame(a: Seq<u8>, b: Seq<u8>, pos: int, left: int)
    requires
        a.len() == b.len(),
        0 <= pos < a.len(),
        entry_at(a, pos, left) is Some,
        forall|i: int| pos <= i < pos + entry_at(a, pos, left)->0.len() ==> a[i] == b[i],
    ensures
        entry_at(b, pos, left) == entry_at(a, pos, left),
{
    if a.len() - pos >= RECORD_HEADER_SIZE {
        assert(a.subrange(pos, pos + RECORD_HEADER_SIZE) =~= b.subrange(
            pos,
            pos + RECORD_HEADER_SIZE,
        ));
        let len = entry_at(a, pos, left)->0.len();
        assert(a.subrange(pos + RECORD_HEADER_SIZE, pos + len) =~= b.subrange(
            pos + RECORD_HEADER_SIZE,
            pos + len,
        ));
    }
}

/// An entry is not empty, and ends inside the ring and the readable bytes.
proof fn lemma_entry_extent(ring: Seq<u8>, pos: int, left: int)
    requires
        0 <= pos < ring.len(),
        entry_at(ring, pos, left) is Some,
    ensures
        0 < entry_at(ring, pos, left)->0.len() <= left,
        pos + entry_at(ring, pos, left)->0.len() <= ring.len(),
        forall|more: int|
            left <= more ==> #[trigger] entry_at(ring, pos, more) == entry_at(ring, pos, left),
{
}

/// The chain of entries depends on the readable bytes alone.
proof fn lemma_chain_frame(a: Seq<u8>, b: Seq<u8>, pos: int, used: int)
    requires
        a.len() == b.len(),
        0 <= pos < a.len(),
        used <= a.len(),
        chained(a, pos, used),
        forall|i: int|
            0 <= i < a.len() && live(pos, used, a.len() as int, i) ==> a[i] == b[i],
    ensures
        chained(b, pos, used),
        entries(b, pos, used) == entries(a, pos, used),
    decreases used,
{
    if used > 0 {
        let cap = a.len() as int;
        let entry = entry_at(a, pos, used)->0;
        lemma_entry_extent(a, pos, used);
        assert forall|i: int| pos <= i < pos + entry.len() implies a[i] == b[i] by {
            assert(live(pos, used, cap, i));
        }
        lemma_entry_frame(a, b, pos, used);
        let next = stream::advance(pos, entry.len(), cap);
        assert forall|i: int|
            0 <= i < a.len() && live(next, used - entry.len(), cap, i) implies a[i] == b[i] by {
            assert(live(pos, used, cap, i));
        }
        lemma_chain_frame(a, b, next, used - entry.len());
    }
}

/// An entry that stands right behind a chain extends the chain.
proof fn lemma_chain_append(ring: Seq<u8>, pos: int, used: int, entry: Entry)
    requires
        0 <= pos < ring.len(),
        0 <= used,
        used + entry.len() <= ring.len(),
        chained(ring, pos, used),
        entry_at(ring, stream::advance(pos, used, ring.len() as int), entry.len()) == Some(entry),
    ensures
        chained(ring, pos, used + entry.len()),
        entries(ring, pos, used + entry.len()) == entries(ring, pos, used).push(entry),
    decreases used,
{
    let cap = ring.len() as int;
    let total = used + entry.len();
    let at = stream::advance(pos, used, cap);
    if used < cap {
        lemma_entry_extent(ring, at, entry.len());
    }
    if used == 0 {
        let after = stream::advance(pos, entry.len(), cap);
        assert(chained(ring, after, 0));
        assert(entries(ring, after, 0) =~= Seq::empty());
        assert(entries(ring, pos, total) =~= entries(ring, pos, used).push(entry));
    } else {
        let first = entry_at(ring, pos, used)->0;
        lemma_entry_extent(ring, pos, used);
        if used == cap {
            assert(entry.len() <= 0);
            lemma_entry_extent(ring, at, entry.len());
        }
        assert(entry_at(ring, pos, total) == Some(first));
        let next = stream::advance(pos, first.len(), cap);
        assert(stream::advance(next, used - first.len(), cap) == at);
        lemma_chain_append(ring, next, used - first.len(), entry);
        assert(entries(ring, pos, total) =~= entries(ring, pos, used).push(entry));
    }
}

/// The records of two sequences of entries, one behind the other.
proof fn lemma_records_of_concat(a: Seq<Entry>, b: Seq<Entry>)
    ensures
        records_of(a + b) == records_of(a) + records_of(b),
    decreases a.len(),
{
    if a.len() == 0 {
        assert(a + b =~= b);
        assert(records_of(a) + records_of(b) =~= records_of(b));
    } else {
        lemma_records_of_concat(a.drop_first(), b);
        assert((a + b).drop_first() =~= a.drop_first() + b);
        assert(records_of(a + b) =~= records_of(a) + records_of(b));
    }
}

/// A reader finds exactly the records among the entries of a chain.
proof fn lemma_read_chain(ring: Seq<u8>, pos: int, used: int)
    requires
        MIN_RING_BUFFER_SIZE <= ring.len(),
        0 <= pos < ring.len(),
        used <= ring.len(),
        chained(ring, pos, used),
    ensures
        stream::read_records(ring, pos, used) == records_of(entries(ring, pos, used)),
    decreases used,
{
    if used > 0 {
        let entry = entry_at(ring, pos, used)->0;
        lemma_entry_extent(ring, pos, used);
        let next = stream::advance(pos, entry.len(), ring.len() as int);
        lemma_read_chain(ring, next, used - entry.len());
        let rest = entries(ring, next, used - entry.len());
        assert((seq![entry] + rest).drop_first() =~= rest);
        assert((seq![entry] + rest)[0] == entry);
    }
}

/// Dropping the oldest entry of a well-formed ring removes the first entry and
/// counts it, unless it is a gap.
proof fn lemma_drop_first(cpu: CpuRing)
    requires
        cpu.wf(),
        cpu.state.used > 0,
    ensures
        ({
            let next = CpuRing { state: without_oldest(cpu.state, cpu.ring), ring: cpu.ring };
            &&& next.wf()
            &&& cpu.entries().len() > 0
            &&& next.entries() == cpu.entries().drop_first()
            &&& next.state.used == cpu.state.used - cpu.entries()[0].len()
            &&& next.state.dropped == (if cpu.entries()[0] is Gap {
                cpu.state.dropped
            } else {
                bumped(cpu.state.dropped)
            })
        }),
{
    let pos = cpu.state.read_pos as int;
    let used = cpu.state.used as int;
    let entry = entry_at(cpu.ring, pos, used)->0;
    lemma_entry_extent(cpu.ring, pos, used);
    let rest = entries(
        cpu.ring,
        stream::advance(pos, entry.len(), cpu.cap()),
        used - entry.len(),
    );
    assert(cpu.entries() == seq![entry] + rest);
    assert((seq![entry] + rest).drop_first() =~= rest);
}

/// Making room in a well-formed ring drops the fewest of the oldest entries
/// that free the needed bytes, and counts those that have a header.
pub proof fn law_make_room(cpu: CpuRing, needed: int)
    requires
        cpu.wf(),
        needed <= cpu.cap(),
    ensures
        ({
            let room = CpuRing { state: with_room(cpu.state, cpu.ring, needed), ring: cpu.ring };
            let k = evictions(cpu.state, cpu.ring, needed) as int;
            &&& room.wf()
            &&& cpu.cap() - room.state.used >= needed
            &&& k <= cpu.entries().len()
            &&& room.entries() == cpu.entries().skip(k)
            &&& k > 0 ==> cpu.cap() - total_len(cpu.entries().skip(k - 1)) < needed
            &&& room.state.dropped == dropped_after(cpu.state.dropped, cpu.entries().take(k))
        }),
    decreases cpu.state.used,
{
    let k = evictions(cpu.state, cpu.ring, needed) as int;
    lemma_with_room(cpu.state, cpu.ring, needed);
    lemma_without_oldest(cpu.state, cpu.ring);
    let next = CpuRing { state: without_oldest(cpu.state, cpu.ring), ring: cpu.ring };
    if cpu.cap() - cpu.state.used >= needed {
        assert(cpu.entries().skip(0) =~= cpu.entries());
        assert(cpu.entries().take(0) =~= Seq::empty());
    } else {
        lemma_drop_first(cpu);
        law_make_room(next, needed);
        let items = cpu.entries();
        assert(items.skip(k) =~= items.drop_first().skip(k - 1));
        assert(items.take(k).drop_first() =~= items.drop_first().take(k - 1));
        assert(items.take(k)[0] == items[0]);
        if k == 1 {
            assert(items.skip(0) =~= items);
            lemma_total_len(cpu.ring, cpu.state.read_pos as int, cpu.state.used as int);
        } else {
            assert(items.skip(k - 1) =~= items.drop_first().skip(k - 2));
        }
    }
}

/// The entries of a chain occupy the readable bytes.
proof fn lemma_total_len(ring: Seq<u8>, pos: int, used: int)
    requires
        0 <= pos < ring.len(),
        0 <= used,
        chained(ring, pos, used),
    ensures
        total_len(entries(ring, pos, used)) == used,
    decreases used,
{
    if used > 0 {
        let entry = entry_at(ring, pos, used)->0;
        lemma_entry_extent(ring, pos, used);
        let next = stream::advance(pos, entry.len(), ring.len() as int);
        lemma_total_len(ring, next, used - entry.len());
        let rest = entries(ring, next, used - entry.len());
        assert((seq![entry] + rest).drop_first() =~= rest);
    }
}

/// The entry that padding of the given length makes, if there is any padding.
pub open spec fn padding_entries(len: int) -> Seq<Entry> {
    if len <= 0 {
        Seq::empty()
    } else if len >= RECORD_HEADER_SIZE {
        seq![Entry::Padding(len)]
    } else {
        seq![Entry::Gap(len)]
    }
}

/// Bytes written outside the readable part of a well-formed ring do not change
/// its entries.
proof fn lemma_write_outside(cpu: CpuRing, at: int, chunk: Seq<u8>)
    requires
        cpu.wf(),
        at == cpu.state.write_pos,
        at + chunk.len() <= cpu.cap(),
        cpu.state.used + chunk.len() <= cpu.cap(),
    ensures
        (CpuRing { ring: bytes::overwrite(cpu.ring, at, chunk), ..cpu }).wf(),
        (CpuRing { ring: bytes::overwrite(cpu.ring, at, chunk), ..cpu }).entries()
            == cpu.entries(),
{
    let after = bytes::overwrite(cpu.ring, at, chunk);
    let pos = cpu.state.read_pos as int;
    let used = cpu.state.used as int;
    assert forall|i: int|
        0 <= i < cpu.cap() && live(pos, used, cpu.cap(), i) implies cpu.ring[i] == after[i] by {
        assert(!(at <= i < at + chunk.len()));
    }
    lemma_chain_frame(cpu.ring, after, pos, used);
}

/// Writing one entry at the write position of a well-formed ring, and moving
/// the write position behind it, adds the entry.
proof fn lemma_put_entry(cpu: CpuRing, chunk: Seq<u8>, entry: Entry)
    requires
        cpu.wf(),
        chunk.len() == entry.len(),
        0 < entry.len(),
        cpu.state.write_pos + entry.len() <= cpu.cap(),
        cpu.state.used + entry.len() <= cpu.cap(),
        entry_at(
            bytes::overwrite(cpu.ring, cpu.state.write_pos as int, chunk),
            cpu.state.write_pos as int,
            entry.len(),
        ) == Some(entry),
        cpu.state.write_pos + entry.len() < cpu.cap() ==> entry.len() % RECORD_ALIGN as int == 0,
    ensures
        ({
            let after = CpuRing {
                state: CpuState {
                    write_pos: stream::advance(
                        cpu.state.write_pos as int,
                        entry.len(),
                        cpu.cap(),
                    ) as usize,
                    used: (cpu.state.used + entry.len()) as usize,
                    ..cpu.state
                },
                ring: bytes::overwrite(cpu.ring, cpu.state.write_pos as int, chunk),
            };
            &&& after.wf()
            &&& after.entries() == cpu.entries().push(entry)
        }),
{
    let at = cpu.state.write_pos as int;
    let ring = bytes::overwrite(cpu.ring, at, chunk);
    lemma_write_outside(cpu, at, chunk);
    lemma_chain_append(ring, cpu.state.read_pos as int, cpu.state.used as int, entry);
}

/// Padding up to the end of a well-formed ring adds its entry and leaves the
/// write position at the front.
proof fn lemma_put_padding(cpu: CpuRing, padding: int)
    requires
        cpu.wf(),
        0 <= padding <= u16::MAX,
        padding > 0 ==> cpu.state.write_pos + padding == cpu.cap(),
        cpu.state.used + padding <= cpu.cap(),
    ensures
        ({
            let after = CpuRing {
                state: CpuState {
                    write_pos: if padding > 0 {
                        0
                    } else {
                        cpu.state.write_pos
                    },
                    used: (cpu.state.used + padding) as usize,
                    ..cpu.state
                },
                ring: bytes::overwrite(
                    cpu.ring,
                    cpu.state.write_pos as int,
                    padding_bytes(padding),
                ),
            };
            &&& after.wf()
            &&& after.entries() == cpu.entries() + padding_entries(padding)
        }),
{
    let at = cpu.state.write_pos as int;
    let filler = padding_bytes(padding);
    let ring = bytes::overwrite(cpu.ring, at, filler);
    if padding == 0 {
        assert(ring =~= cpu.ring);
        assert(cpu.entries() + padding_entries(padding) =~= cpu.entries());
    } else if padding >= RECORD_HEADER_SIZE {
        let head = record::header_bytes(padding as u16, RecordKind::Padding, 0, 0);
        record::law_header_round_trip(padding as u16, RecordKind::Padding, 0, 0);
        assert(ring.subrange(at, at + RECORD_HEADER_SIZE) =~= head);
        lemma_put_entry(cpu, filler, Entry::Padding(padding));
        assert(cpu.entries() + padding_entries(padding) =~= cpu.entries().push(
            Entry::Padding(padding),
        ));
    } else {
        lemma_put_entry(cpu, filler, Entry::Gap(padding));
        assert(cpu.entries() + padding_entries(padding) =~= cpu.entries().push(
            Entry::Gap(padding),
        ));
    }
}

/// The entry that a record makes: readers skip one of the padding kind.
pub open spec fn put_entry(
    kind: RecordKind,
    event_id: u32,
    timestamp: u64,
    payload: Seq<u8>,
) -> Entry {
    if kind == RecordKind::Padding {
        Entry::Padding(record_len(payload.len()))
    } else {
        Entry::Record(record_view(kind, event_id, timestamp, payload))
    }
}

/// A record written at the write position of a well-formed ring adds its entry.
proof fn lemma_put_record(
    cpu: CpuRing,
    kind: RecordKind,
    event_id: u32,
    timestamp: u64,
    payload: Seq<u8>,
)
    requires
        cpu.wf(),
        record_len(payload.len()) <= u16::MAX,
        cpu.state.write_pos + record_len(payload.len()) <= cpu.cap(),
        cpu.state.used + record_len(payload.len()) <= cpu.cap(),
    ensures
        ({
            let total = record_len(payload.len());
            let after = CpuRing {
                state: CpuState {
                    write_pos: stream::advance(
                        cpu.state.write_pos as int,
                        total,
                        cpu.cap(),
                    ) as usize,
                    used: (cpu.state.used + total) as usize,
                    ..cpu.state
                },
                ring: bytes::overwrite(
                    cpu.ring,
                    cpu.state.write_pos as int,
                    record_bytes(kind, event_id, timestamp, payload),
                ),
            };
            &&& after.wf()
            &&& after.entries() == cpu.entries().push(
                put_entry(kind, event_id, timestamp, payload),
            )
        }),
{
    let total = record_len(payload.len());
    let at = cpu.state.write_pos as int;
    let chunk = record_bytes(kind, event_id, timestamp, payload);
    let view = record_view(kind, event_id, timestamp, payload);
    let head = record::header_bytes(total as u16, kind, event_id, timestamp);
    lemma_record_len(payload.len());
    record::law_header_round_trip(total as u16, kind, event_id, timestamp);
    assert(chunk.len() == total);
    let ring = bytes::overwrite(cpu.ring, at, chunk);
    assert(ring.subrange(at, at + RECORD_HEADER_SIZE) =~= head);
    assert(ring.subrange(at + RECORD_HEADER_SIZE, at + total) =~= view.payload);
    lemma_put_entry(cpu, chunk, put_entry(kind, event_id, timestamp, payload));
}

/// A ring without entries stays well-formed, and empty, when its cursors move to
/// the front.
proof fn lemma_start_over(cpu: CpuRing)
    requires
        cpu.wf(),
        cpu.state.used == 0,
    ensures
        (CpuRing { state: CpuState { read_pos: 0, write_pos: 0, ..cpu.state }, ..cpu }).wf(),
        (CpuRing { state: CpuState { read_pos: 0, write_pos: 0, ..cpu.state }, ..cpu }).entries()
            == cpu.entries(),
{
}

/// Once there is room, the padding and the record add their entries.
proof fn lemma_put_ready(
    cpu: CpuRing,
    kind: RecordKind,
    event_id: u32,
    timestamp: u64,
    payload: Seq<u8>,
)
    requires
        ({
            let total = record_len(payload.len());
            let at = cpu.state.write_pos as int;
            let lead = lead_len(at, cpu.cap(), total);
            let ready = CpuRing { state: prepared(cpu, total), ring: cpu.ring };
            &&& ready.wf()
            &&& total <= u16::MAX
            &&& 0 <= lead <= u16::MAX
            &&& 0 <= at <= cpu.cap()
            &&& put_start(cpu, total) + total <= cpu.cap()
            &&& ready.state.used + lead + total <= cpu.cap()
            &&& lead > 0 ==> ready.state.write_pos == at && at + lead == cpu.cap()
        }),
    ensures
        ({
            let total = record_len(payload.len());
            let lead = lead_len(cpu.state.write_pos as int, cpu.cap(), total);
            let ready = CpuRing { state: prepared(cpu, total), ring: cpu.ring };
            let after = CpuRing {
                state: put_state(cpu, total),
                ring: put_bytes(cpu.ring, 0, cpu, kind, event_id, timestamp, payload),
            };
            &&& after.wf()
            &&& after.cap() == cpu.cap()
            &&& after.entries() == (ready.entries() + padding_entries(lead)).push(
                put_entry(kind, event_id, timestamp, payload),
            )
        }),
{
    let total = record_len(payload.len());
    let at = cpu.state.write_pos as int;
    let lead = lead_len(at, cpu.cap(), total);
    let ready = CpuRing { state: prepared(cpu, total), ring: cpu.ring };
    let padded = CpuRing {
        state: CpuState {
            write_pos: put_start(cpu, total) as usize,
            used: (ready.state.used + lead) as usize,
            ..ready.state
        },
        ring: bytes::overwrite(cpu.ring, at, padding_bytes(lead)),
    };
    lemma_record_len(payload.len());
    if lead > 0 {
        lemma_put_padding(ready, lead);
    } else {
        assert(padded.ring =~= cpu.ring);
        assert(ready.entries() + padding_entries(lead) =~= ready.entries());
    }
    lemma_put_record(padded, kind, event_id, timestamp, payload);
}

/// What a write to the ring does.
///
/// Putting a record into a well-formed ring keeps the ring well-formed. The
/// entries afterwards are those before, without the fewest oldest ones that had
/// to make room, then the padding up to the end of the ring if the record
/// wraps, then the record. The drop counter counts the entries that made room.
/// All entries make room if even an empty ring has too few bytes for the record
/// and the padding in front of it.
pub proof fn law_put_entries(
    cpu: CpuRing,
    mode: BufferMode,
    kind: RecordKind,
    event_id: u32,
    timestamp: u64,
    payload: Seq<u8>,
)
    requires
        cpu.wf(),
    ensures
        ring_put(cpu, mode, kind, event_id, timestamp, payload) matches Ok(after) ==> {
            let total = record_len(payload.len());
            let at = cpu.state.write_pos as int;
            let k = evictions(cpu.state, cpu.ring, room_needed(at, cpu.cap(), total)) as int;
            &&& after.wf()
            &&& k <= cpu.entries().len()
            &&& cramped(at, cpu.cap(), total) ==> k == cpu.entries().len()
            &&& after.entries() == (cpu.entries().skip(k) + padding_entries(
                lead_len(at, cpu.cap(), total),
            )).push(put_entry(kind, event_id, timestamp, payload))
            &&& after.state.dropped == dropped_after(cpu.state.dropped, cpu.entries().take(k))
            &&& after.state.per_cpu_seq == cpu.state.per_cpu_seq
            &&& after.state.reentrant_dropped == cpu.state.reentrant_dropped
            &&& after.state.writer_active == cpu.state.writer_active
            &&& after.cap() == cpu.cap()
        },
{
    if let Ok(after) = ring_put(cpu, mode, kind, event_id, timestamp, payload) {
        let total = record_len(payload.len());
        let at = cpu.state.write_pos as int;
        let needed = room_needed(at, cpu.cap(), total);
        let lead = lead_len(at, cpu.cap(), total);
        let k = evictions(cpu.state, cpu.ring, needed) as int;
        lemma_record_len(payload.len());
        law_make_room(cpu, needed);
        lemma_with_room(cpu.state, cpu.ring, needed);
        let room = CpuRing { state: with_room(cpu.state, cpu.ring, needed), ring: cpu.ring };
        let ready = CpuRing { state: prepared(cpu, total), ring: cpu.ring };
        if cramped(at, cpu.cap(), total) {
            lemma_start_over(room);
            assert(room.entries().len() == 0);
            assert(cpu.entries().skip(k).len() == cpu.entries().len() - k);
            assert(ready.entries() =~= cpu.entries().skip(k));
        }
        lemma_put_ready(cpu, kind, event_id, timestamp, payload);
    }
}

/// The entries that make room for `needed` bytes.
pub open spec fn evicted(cpu: CpuRing, needed: int) -> Seq<Entry> {
    cpu.entries().take(evictions(cpu.state, cpu.ring, needed) as int)
}

/// The number of records among the entries that make room for `needed` bytes.
pub open spec fn lost_records(cpu: CpuRing, needed: int) -> int {
    records_of(evicted(cpu, needed)).len() as int
}

/// The number of padding records among a sequence of entries.
pub open spec fn paddings_of(items: Seq<Entry>) -> nat
    decreases items.len(),
{
    if items.len() == 0 {
        0
    } else if items[0] is Padding {
        1 + paddings_of(items.drop_first())
    } else {
        paddings_of(items.drop_first())
    }
}

/// Dropped entries are counted one by one: each record and each padding record,
/// as long as the counter does not reach its greatest value.
pub proof fn law_dropped_after(count: u64, items: Seq<Entry>)
    ensures
        count <= dropped_after(count, items),
        dropped_after(count, items) < u64::MAX ==> dropped_after(count, items) == count
            + records_of(items).len() + paddings_of(items),
    decreases items.len(),
{
    if items.len() > 0 {
        law_dropped_after(
            if items[0] is Gap {
                count
            } else {
                bumped(count)
            },
            items.drop_first(),
        );
    }
}

/// A read gives back what was written, in writing order.
///
/// After a record was put into a well-formed ring, a reader finds the records
/// it found before, without the oldest ones that had to make room, and then the
/// new record, unless it is of the padding kind, which readers skip. None is lost
/// if the free bytes were enough, and none is ever lost in
/// [`BufferMode::StopOnFull`].
pub proof fn law_read_after_put(
    cpu: CpuRing,
    mode: BufferMode,
    kind: RecordKind,
    event_id: u32,
    timestamp: u64,
    payload: Seq<u8>,
)
    requires
        cpu.wf(),
    ensures
        ring_put(cpu, mode, kind, event_id, timestamp, payload) matches Ok(after) ==> {
            let total = record_len(payload.len());
            let needed = room_needed(cpu.state.write_pos as int, cpu.cap(), total);
            let lost = lost_records(cpu, needed);
            &&& 0 <= lost <= cpu.records().len()
            &&& after.records() == cpu.records().skip(lost) + (if kind == RecordKind::Padding {
                Seq::empty()
            } else {
                seq![record_view(kind, event_id, timestamp, payload)]
            })
            &&& cpu.cap() - cpu.state.used >= needed ==> lost == 0
            &&& mode == BufferMode::StopOnFull ==> lost == 0
        },
{
    if let Ok(after) = ring_put(cpu, mode, kind, event_id, timestamp, payload) {
        let total = record_len(payload.len());
        let at = cpu.state.write_pos as int;
        let needed = room_needed(at, cpu.cap(), total);
        let k = evictions(cpu.state, cpu.ring, needed) as int;
        let view = record_view(kind, event_id, timestamp, payload);
        law_put_entries(cpu, mode, kind, event_id, timestamp, payload);
        law_make_room(cpu, needed);
        let gone = cpu.entries().take(k);
        let kept = cpu.entries().skip(k);
        let fill = padding_entries(lead_len(at, cpu.cap(), total));
        let last = seq![put_entry(kind, event_id, timestamp, payload)];
        let shown = if kind == RecordKind::Padding {
            Seq::empty()
        } else {
            seq![view]
        };
        lemma_read_chain(cpu.ring, cpu.state.read_pos as int, cpu.state.used as int);
        lemma_read_chain(after.ring, after.state.read_pos as int, after.state.used as int);
        assert(cpu.entries() =~= gone + kept);
        lemma_records_of_concat(gone, kept);
        assert(after.entries() =~= kept + fill + last);
        lemma_records_of_concat(kept + fill, last);
        lemma_records_of_concat(kept, fill);
        assert(records_of(fill) =~= Seq::empty()) by {
            reveal_with_fuel(records_of, 2);
        }
        assert(records_of(last) =~= shown) by {
            reveal_with_fuel(records_of, 2);
        }
        assert(cpu.records().skip(records_of(gone).len() as int) =~= records_of(kept));
        assert(after.records() =~= records_of(kept) + shown);
        if cpu.cap() - cpu.state.used >= needed {
            assert(gone =~= Seq::empty());
        }
    }
}

/// A record of `total` bytes fits into the free bytes of a ring: either in front of
/// its end, or at its front when the bytes up to the end are given up too.
pub open spec fn fits_free(cpu: CpuRing, total: int) -> bool {
    let to_end = cpu.ring.len() - cpu.state.write_pos;
    let free = cpu.ring.len() - cpu.state.used;
    if total <= to_end {
        total <= free
    } else {
        to_end + total <= free
    }
}

/// The length of a record: a header of sixteen bytes and the payload, up to the
/// next multiple of eight.
pub open spec fn is_record_len(total: int, len: nat) -> bool {
    total % 8 == 0 && 16 + len <= total < 16 + len + 8
}

/// The record lengths that the library uses are these.
proof fn lemma_is_record_len(total: int, len: nat)
    requires
        is_record_len(total, len),
    ensures
        record_len(len) == total,
{
    lemma_record_len(len);
}

/// When a record is put into a ring, and what each refusal means.
///
/// A record that exceeds the ring is too large. Any other is put into the ring if
/// there are enough free bytes for it, or if old records may make room.
pub proof fn law_put_decides(
    cpu: CpuRing,
    mode: BufferMode,
    kind: RecordKind,
    event_id: u32,
    timestamp: u64,
    payload: Seq<u8>,
    total: int,
)
    requires
        cpu.wf(),
        is_record_len(total, payload.len()),
    ensures
        ({
            let result = ring_put(cpu, mode, kind, event_id, timestamp, payload);
            if total > 0xffff || total > cpu.ring.len() {
                result == Err::<CpuRing, DropReason>(DropReason::RecordTooLarge)
            } else if mode == BufferMode::Overwrite || fits_free(cpu, total) {
                result is Ok
            } else {
                result == Err::<CpuRing, DropReason>(DropReason::BufferFull)
            }
        }),
{
    lemma_is_record_len(total, payload.len());
}

/// A reader finds the record that was put last.
pub open spec fn reads_last(
    cpu: CpuRing,
    kind: RecordKind,
    event_id: u32,
    timestamp: u64,
    payload: Seq<u8>,
    total: int,
) -> bool {
    let record = cpu.records().last();
    &&& cpu.records().len() > 0
    &&& record.header == (RecordHeader { len: total as u16, kind, flags: 0, event_id, timestamp })
    &&& record.payload.len() == total - 16
    &&& record.payload.take(payload.len() as int) == payload
    &&& forall|i: int|
        payload.len() <= i < record.payload.len() ==> #[trigger] record.payload[i] == 0
}

/// The bytes are padding: all zero, but for the length in the first two and the kind
/// 255 in the third if there are as many as a header has.
pub open spec fn is_padding(s: Seq<u8>) -> bool {
    &&& s.len() >= 16 ==> s[0] + 256 * s[1] == s.len() && s[2] == 255
    &&& forall|i: int|
        0 <= i < s.len() && (s.len() < 16 || i >= 3) ==> #[trigger] s[i] == 0
}

/// What fills a ring up to its end is padding.
proof fn lemma_padding(len: int)
    requires
        0 <= len <= u16::MAX,
    ensures
        padding_bytes(len).len() == len,
        is_padding(padding_bytes(len)),
{
    broadcast use bytes::lemma_le_bytes_len;

    let s = padding_bytes(len);
    if len >= 16 {
        let head = record::header_bytes(len as u16, RecordKind::Padding, 0, 0);
        record::law_header_layout(len as u16, RecordKind::Padding, 0, 0);
        bytes::law_little_endian(head, 0);
        bytes::law_little_endian(head, 4);
        bytes::law_little_endian(head, 8);
        assert forall|i: int| 0 <= i < s.len() && i >= 3 implies #[trigger] s[i] == 0 by {
            if i < 16 {
                assert(s[i] == head[i]);
            }
        }
        assert(s[0] == head[0] && s[1] == head[1] && s[2] == head[2]);
    }
}

/// A record that fits into the free bytes is put behind all others, and none is
/// lost.
///
/// In front of the end of the ring, the record takes just its own bytes, and no
/// other byte changes. Otherwise the bytes up to the end are given up, and it goes
/// to the front. This holds in either mode.
pub proof fn law_put_fits(
    cpu: CpuRing,
    mode: BufferMode,
    kind: RecordKind,
    event_id: u32,
    timestamp: u64,
    payload: Seq<u8>,
    total: int,
)
    requires
        cpu.wf(),
        is_record_len(total, payload.len()),
        total <= 0xffff,
        total <= cpu.ring.len(),
        fits_free(cpu, total),
        kind != RecordKind::Padding,
    ensures
        ({
            let result = ring_put(cpu, mode, kind, event_id, timestamp, payload);
            let after = result->Ok_0;
            let cap = cpu.ring.len() as int;
            let at = cpu.state.write_pos as int;
            let end = at + total;
            &&& result is Ok
            &&& after.ring.len() == cap
            &&& after.wf()
            &&& after.records().len() == cpu.records().len() + 1
            &&& after.records().drop_last() == cpu.records()
            &&& reads_last(after, kind, event_id, timestamp, payload, total)
            &&& if end <= cap {
                &&& after.state == (CpuState {
                    write_pos: if end == cap {
                        0
                    } else {
                        end as usize
                    },
                    used: (cpu.state.used + total) as usize,
                    ..cpu.state
                })
                &&& forall|i: int|
                    0 <= i < cap && !(at <= i < end) ==> #[trigger] after.ring[i] == cpu.ring[i]
            } else {
                &&& after.state == (CpuState {
                    write_pos: total as usize,
                    used: (cpu.state.used + (cap - at) + total) as usize,
                    ..cpu.state
                })
                &&& forall|i: int| total <= i < at ==> #[trigger] after.ring[i] == cpu.ring[i]
                &&& is_padding(after.ring.subrange(at, cap))
            }
        }),
{
    lemma_put_fits_records(cpu, mode, kind, event_id, timestamp, payload, total);
    lemma_put_fits_state(cpu, mode, kind, event_id, timestamp, payload, total);
    lemma_put_fits_bytes(cpu, mode, kind, event_id, timestamp, payload, total);
}

/// What a reader finds after a record that fits into the free bytes was put.
#[verifier::spinoff_prover]
proof fn lemma_put_fits_records(
    cpu: CpuRing,
    mode: BufferMode,
    kind: RecordKind,
    event_id: u32,
    timestamp: u64,
    payload: Seq<u8>,
    total: int,
)
    requires
        cpu.wf(),
        is_record_len(total, payload.len()),
        total <= 0xffff,
        total <= cpu.ring.len(),
        fits_free(cpu, total),
        kind != RecordKind::Padding,
    ensures
        ({
            let result = ring_put(cpu, mode, kind, event_id, timestamp, payload);
            let after = result->Ok_0;
            &&& result is Ok
            &&& after.wf()
            &&& after.records().len() == cpu.records().len() + 1
            &&& after.records().drop_last() == cpu.records()
            &&& reads_last(after, kind, event_id, timestamp, payload, total)
        }),
{
    lemma_is_record_len(total, payload.len());
    law_put_decides(cpu, mode, kind, event_id, timestamp, payload, total);
    law_put_entries(cpu, mode, kind, event_id, timestamp, payload);
    law_read_after_put(cpu, mode, kind, event_id, timestamp, payload);
    let after = ring_put(cpu, mode, kind, event_id, timestamp, payload)->Ok_0;
    let view = record_view(kind, event_id, timestamp, payload);
    assert(cpu.records().skip(0) =~= cpu.records());
    assert(after.records() =~= cpu.records() + seq![view]);
    assert(after.records().drop_last() =~= cpu.records());
    lemma_reads_last(after, kind, event_id, timestamp, payload, total);
}

/// The view of a record that was put shows what was put.
proof fn lemma_reads_last(
    cpu: CpuRing,
    kind: RecordKind,
    event_id: u32,
    timestamp: u64,
    payload: Seq<u8>,
    total: int,
)
    requires
        is_record_len(total, payload.len()),
        cpu.records().len() > 0,
        cpu.records().last() == record_view(kind, event_id, timestamp, payload),
    ensures
        reads_last(cpu, kind, event_id, timestamp, payload, total),
{
    lemma_is_record_len(total, payload.len());
    let view = record_view(kind, event_id, timestamp, payload);
    assert(view.payload.take(payload.len() as int) =~= payload);
}

/// The state after a record that fits into the free bytes was put.
#[verifier::spinoff_prover]
proof fn lemma_put_fits_state(
    cpu: CpuRing,
    mode: BufferMode,
    kind: RecordKind,
    event_id: u32,
    timestamp: u64,
    payload: Seq<u8>,
    total: int,
)
    requires
        cpu.wf(),
        is_record_len(total, payload.len()),
        total <= 0xffff,
        total <= cpu.ring.len(),
        fits_free(cpu, total),
    ensures
        ({
            let result = ring_put(cpu, mode, kind, event_id, timestamp, payload);
            let cap = cpu.ring.len() as int;
            let at = cpu.state.write_pos as int;
            let end = at + total;
            &&& result is Ok
            &&& result->Ok_0.state == (if end <= cap {
                CpuState {
                    write_pos: if end == cap {
                        0
                    } else {
                        end as usize
                    },
                    used: (cpu.state.used + total) as usize,
                    ..cpu.state
                }
            } else {
                CpuState {
                    write_pos: total as usize,
                    used: (cpu.state.used + (cap - at) + total) as usize,
                    ..cpu.state
                }
            })
        }),
{
    lemma_is_record_len(total, payload.len());
    let at = cpu.state.write_pos as int;
    let needed = room_needed(at, cpu.cap(), total);
    assert(with_room(cpu.state, cpu.ring, needed) == cpu.state);
}

/// The bytes after a record that fits into the free bytes was put.
#[verifier::spinoff_prover]
proof fn lemma_put_fits_bytes(
    cpu: CpuRing,
    mode: BufferMode,
    kind: RecordKind,
    event_id: u32,
    timestamp: u64,
    payload: Seq<u8>,
    total: int,
)
    requires
        cpu.wf(),
        is_record_len(total, payload.len()),
        total <= 0xffff,
        total <= cpu.ring.len(),
        fits_free(cpu, total),
    ensures
        ({
            let result = ring_put(cpu, mode, kind, event_id, timestamp, payload);
            let after = result->Ok_0;
            let cap = cpu.ring.len() as int;
            let at = cpu.state.write_pos as int;
            let end = at + total;
            &&& result is Ok
            &&& after.ring.len() == cap
            &&& end <= cap ==> forall|i: int|
                0 <= i < cap && !(at <= i < end) ==> #[trigger] after.ring[i] == cpu.ring[i]
            &&& end > cap ==> forall|i: int|
                total <= i < at ==> #[trigger] after.ring[i] == cpu.ring[i]
            &&& end > cap ==> is_padding(after.ring.subrange(at, cap))
        }),
{
    let cap = cpu.ring.len() as int;
    let at = cpu.state.write_pos as int;
    lemma_is_record_len(total, payload.len());
    let needed = room_needed(at, cpu.cap(), total);
    assert(with_room(cpu.state, cpu.ring, needed) == cpu.state);
    let after = ring_put(cpu, mode, kind, event_id, timestamp, payload)->Ok_0;
    lemma_record_len(payload.len());
    record::law_header_round_trip(total as u16, kind, event_id, timestamp);
    assert(record_bytes(kind, event_id, timestamp, payload).len() == total);
    if at + total <= cap {
        assert(put_start(cpu, total) == at);
        assert(padding_bytes(0) =~= Seq::<u8>::empty());
    } else {
        assert(put_start(cpu, total) == 0);
        lemma_padding(cap - at);
        assert(after.ring.subrange(at, cap) =~= padding_bytes(cap - at));
    }
}

/// In [`BufferMode::Overwrite`] old records make room, no more than needed.
///
/// A record that the ring can hold is put behind all others. If the record, and the
/// bytes up to the end that it may have to give up, can be free together, the
/// fewest of the oldest entries that leave so many bytes free make room. If not,
/// all do, and the record starts the ring over at its front. The number of entries
/// that made room is returned.
#[verifier::rlimit(30)]
#[verifier::spinoff_prover]
pub proof fn law_put_overwrites(
    cpu: CpuRing,
    kind: RecordKind,
    event_id: u32,
    timestamp: u64,
    payload: Seq<u8>,
    total: int,
) -> (gone: int)
    requires
        cpu.wf(),
        is_record_len(total, payload.len()),
        total <= 0xffff,
        total <= cpu.ring.len(),
        kind != RecordKind::Padding,
    ensures
        ({
            let result = ring_put(cpu, BufferMode::Overwrite, kind, event_id, timestamp, payload);
            let after = result->Ok_0;
            let cap = cpu.ring.len() as int;
            let at = cpu.state.write_pos as int;
            let given_up = if at + total <= cap {
                0
            } else {
                cap - at
            };
            let kept = cpu.entries().skip(gone);
            &&& result is Ok
            &&& after.wf()
            &&& after.ring.len() == cap
            &&& 0 <= gone <= cpu.entries().len()
            &&& after.records().len() > 0
            &&& after.records().drop_last() == records_of(kept)
            &&& reads_last(after, kind, event_id, timestamp, payload, total)
            &&& after.state.dropped >= cpu.state.dropped
            &&& after.state.dropped < u64::MAX ==> after.state.dropped == cpu.state.dropped
                + records_of(cpu.entries().take(gone)).len() + paddings_of(
                cpu.entries().take(gone),
            )
            &&& after.state.per_cpu_seq == cpu.state.per_cpu_seq
            &&& after.state.reentrant_dropped == cpu.state.reentrant_dropped
            &&& if given_up + total <= cap {
                &&& total_len(kept) + given_up + total <= cap
                &&& gone > 0 ==> total_len(cpu.entries().skip(gone - 1)) + given_up + total > cap
                &&& after.state.used == total_len(kept) + given_up + total
                &&& after.state.write_pos == (if given_up > 0 {
                    total
                } else if at + total == cap {
                    0
                } else {
                    at + total
                })
            } else {
                &&& gone == cpu.entries().len()
                &&& after.state.used == total
                &&& after.state.read_pos == 0
                &&& after.state.write_pos == (if total == cap {
                    0
                } else {
                    total
                })
            }
        }),
{
    let mode = BufferMode::Overwrite;
    let cap = cpu.ring.len() as int;
    let at = cpu.state.write_pos as int;
    let needed = room_needed(at, cap, total);
    let gone = evictions(cpu.state, cpu.ring, needed) as int;
    lemma_is_record_len(total, payload.len());
    law_put_entries(cpu, mode, kind, event_id, timestamp, payload);
    law_read_after_put(cpu, mode, kind, event_id, timestamp, payload);
    law_make_room(cpu, needed);
    law_read_is_entries(cpu);
    let after = ring_put(cpu, mode, kind, event_id, timestamp, payload)->Ok_0;
    let view = record_view(kind, event_id, timestamp, payload);
    let items = cpu.entries();
    let room = CpuRing { state: with_room(cpu.state, cpu.ring, needed), ring: cpu.ring };
    law_read_is_entries(room);
    law_dropped_after(cpu.state.dropped, items.take(gone));
    assert(items =~= items.take(gone) + items.skip(gone));
    lemma_records_of_concat(items.take(gone), items.skip(gone));
    assert(cpu.records().skip(lost_records(cpu, needed)) =~= records_of(items.skip(gone)));
    assert(after.records() =~= records_of(items.skip(gone)) + seq![view]);
    assert(after.records().drop_last() =~= records_of(items.skip(gone)));
    lemma_reads_last(after, kind, event_id, timestamp, payload, total);
    lemma_with_room(cpu.state, cpu.ring, needed);
    gone
}

/// A reader of a well-formed ring finds exactly the records among its entries.
pub proof fn law_read_is_entries(cpu: CpuRing)
    requires
        cpu.wf(),
    ensures
        cpu.records() == records_of(cpu.entries()),
        total_len(cpu.entries()) == cpu.state.used,
{
    lemma_read_chain(cpu.ring, cpu.state.read_pos as int, cpu.state.used as int);
    lemma_total_len(cpu.ring, cpu.state.read_pos as int, cpu.state.used as int);
}

/// An empty ring is well-formed, and a reader finds nothing in it.
pub proof fn law_fresh(ring: Seq<u8>)
    requires
        MIN_RING_BUFFER_SIZE <= ring.len() <= usize::MAX,
    ensures
        (CpuRing { state: CpuState::fresh(), ring }).wf(),
        (CpuRing { state: CpuState::fresh(), ring }).records() == Seq::<RecordView>::empty(),
{
}

/// Dropping the oldest entry frees just its bytes.
///
/// The other entries stay. A record or a padding record counts as dropped, the bytes
/// at the end that are too few for a header do not. An empty ring stays as it is.
pub proof fn law_drop_oldest(cpu: CpuRing)
    requires
        cpu.wf(),
    ensures
        ({
            let after = CpuRing { state: without_oldest(cpu.state, cpu.ring), ring: cpu.ring };
            let first = cpu.entries()[0];
            if cpu.state.used == 0 {
                after == cpu
            } else {
                &&& after.wf()
                &&& cpu.entries().len() > 0
                &&& after.entries() == cpu.entries().skip(1)
                &&& after.state.used == cpu.state.used - first.len()
                &&& after.state.write_pos == cpu.state.write_pos
                &&& after.state.per_cpu_seq == cpu.state.per_cpu_seq
                &&& after.state.reentrant_dropped == cpu.state.reentrant_dropped
                &&& after.state.writer_active == cpu.state.writer_active
                &&& after.state.dropped == (if first is Gap || cpu.state.dropped == u64::MAX {
                    cpu.state.dropped as int
                } else {
                    cpu.state.dropped + 1
                })
            }
        }),
{
    lemma_without_oldest(cpu.state, cpu.ring);
    if cpu.state.used > 0 {
        lemma_drop_first(cpu);
        assert(cpu.entries().skip(1) =~= cpu.entries().drop_first());
    }
}

/// A fresh CPU has used nothing, numbered nothing and dropped nothing.
pub proof fn law_fresh_is_zero(ring: Seq<u8>)
    requires
        32 <= ring.len() <= usize::MAX,
    ensures
        ({
            let cpu = CpuRing { state: CpuState::fresh(), ring };
            &&& cpu.wf()
            &&& cpu.records().len() == 0
            &&& cpu.entries().len() == 0
            &&& cpu.state == (CpuState {
                write_pos: 0,
                read_pos: 0,
                used: 0,
                per_cpu_seq: 0,
                dropped: 0,
                reentrant_dropped: 0,
                writer_active: false,
            })
        }),
{
    law_fresh(ring);
}

} // verus!
