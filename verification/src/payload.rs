//! Record payloads: how events are written into a record and read back.
//!
//! A payload starts with the CPU id and the per-CPU sequence number. The event
//! follows. Integers are little-endian; a string is its length as a `u16` and
//! then its UTF-8 bytes; a task is its thread id, group id, priority and name.

use vstd::prelude::*;
use vstd::utf8;

use crate::bytes;
use crate::bytes::{
    copy_at, read_u16_at, read_u32_at, read_u64_at, write_u16_at, write_u32_at, write_u64_at,
};
use crate::record::{
    RecordHeader, RecordKind, EVENT_CONTEXT_SWITCH, EVENT_TRACE_MARK_BEGIN, EVENT_TRACE_MARK_END,
};
use crate::ring::DropReason;
use crate::task::{OffCpuState, OwnedTaskRef, TaskRef, TaskView};

verus! {

/// Size in bytes of the scratch space in which a payload is encoded.
pub const PAYLOAD_CAPACITY: usize = 512;

/// An event to append: what happened, without the CPU, the time and the
/// sequence number that the append adds.
#[derive(Clone, Copy, Debug, Eq, PartialEq)]
pub enum TraceEvent<'a> {
    /// A CPU switched from one task to another.
    ContextSwitch {
        /// Task leaving the CPU.
        prev: TaskRef<'a>,
        /// Off-CPU state entered by `prev`.
        prev_state: OffCpuState,
        /// Task selected to run on the CPU.
        next: TaskRef<'a>,
    },
    /// A synchronous trace mark began.
    TraceMarkBegin {
        /// Task associated with the trace mark.
        task: TaskRef<'a>,
        /// Slice name.
        name: &'a str,
    },
    /// A synchronous trace mark ended.
    TraceMarkEnd {
        /// Task associated with the ending trace mark.
        task: TaskRef<'a>,
    },
}

/// What an event says, with names as their characters.
pub ghost enum EventView {
    /// A CPU switched from one task to another.
    ContextSwitch { prev: TaskView, prev_state: OffCpuState, next: TaskView },
    /// A synchronous trace mark began.
    TraceMarkBegin { task: TaskView, name: Seq<char> },
    /// A synchronous trace mark ended.
    TraceMarkEnd { task: TaskView },
}

impl<'a> View for TraceEvent<'a> {
    type V = EventView;

    open spec fn view(&self) -> EventView {
        match *self {
            TraceEvent::ContextSwitch { prev, prev_state, next } => EventView::ContextSwitch {
                prev: prev@,
                prev_state,
                next: next@,
            },
            TraceEvent::TraceMarkBegin { task, name } => EventView::TraceMarkBegin {
                task: task@,
                name: name@,
            },
            TraceEvent::TraceMarkEnd { task } => EventView::TraceMarkEnd { task: task@ },
        }
    }
}

impl EventView {
    /// The record kind under which the event is stored.
    pub open spec fn kind(self) -> RecordKind {
        match self {
            EventView::ContextSwitch { .. } => RecordKind::ContextSwitch,
            EventView::TraceMarkBegin { .. } => RecordKind::DurationBegin,
            EventView::TraceMarkEnd { .. } => RecordKind::DurationEnd,
        }
    }

    /// The event id under which the event is stored.
    pub open spec fn event_id(self) -> u32 {
        match self {
            EventView::ContextSwitch { .. } => EVENT_CONTEXT_SWITCH,
            EventView::TraceMarkBegin { .. } => EVENT_TRACE_MARK_BEGIN,
            EventView::TraceMarkEnd { .. } => EVENT_TRACE_MARK_END,
        }
    }

    /// The event as a reader sees it: an `Unknown` state that carries the
    /// number of a built-in state reads as that state.
    pub open spec fn as_read(self) -> EventView {
        match self {
            EventView::ContextSwitch { prev, prev_state, next } => EventView::ContextSwitch {
                prev,
                prev_state: OffCpuState::of_code(prev_state.code()),
                next,
            },
            _ => self,
        }
    }
}

/// The bits of `v` as an unsigned number.
pub open spec fn i32_bits(v: i32) -> u32 {
    if v >= 0 {
        v as u32
    } else {
        (v + 0x1_0000_0000) as u32
    }
}

/// The signed number with the bits of `v`.
pub open spec fn i32_of_bits(v: u32) -> i32 {
    if v <= 0x7fff_ffff {
        v as i32
    } else {
        (v - 0x1_0000_0000) as i32
    }
}

/// The encoding of a string.
pub open spec fn str_bytes(text: Seq<char>) -> Seq<u8> {
    bytes::le_bytes(utf8::encode_utf8(text).len(), 2) + utf8::encode_utf8(text)
}

/// A string is short enough for its length to be stored.
pub open spec fn str_encodable(text: Seq<char>) -> bool {
    utf8::encode_utf8(text).len() <= 0xffff
}

/// The strings of an event are short enough for their lengths to be stored.
pub open spec fn event_encodable(event: EventView) -> bool {
    match event {
        EventView::ContextSwitch { prev, prev_state, next } => str_encodable(prev.comm)
            && str_encodable(next.comm),
        EventView::TraceMarkBegin { task, name } => str_encodable(task.comm) && str_encodable(
            name,
        ),
        EventView::TraceMarkEnd { task } => str_encodable(task.comm),
    }
}

/// The encoding of a task.
pub open spec fn task_bytes(task: TaskView) -> Seq<u8> {
    bytes::le_bytes(task.tid as nat, 4) + bytes::le_bytes(task.tgid as nat, 4) + bytes::le_bytes(
        i32_bits(task.prio) as nat,
        4,
    ) + str_bytes(task.comm)
}

/// The encoding of an event without the leading CPU id and sequence number.
pub open spec fn event_bytes(event: EventView) -> Seq<u8> {
    match event {
        EventView::ContextSwitch { prev, prev_state, next } => task_bytes(prev) + bytes::le_bytes(
            prev_state.code() as nat,
            4,
        ) + task_bytes(next),
        EventView::TraceMarkBegin { task, name } => task_bytes(task) + str_bytes(name),
        EventView::TraceMarkEnd { task } => task_bytes(task),
    }
}

/// The payload of a record.
pub open spec fn payload_bytes(cpu_id: u32, seq: u64, event: EventView) -> Seq<u8> {
    bytes::le_bytes(cpu_id as nat, 4) + bytes::le_bytes(seq as nat, 8) + event_bytes(event)
}

/// The string encoded at `pos` and the position after it, if there is one.
pub open spec fn str_at(s: Seq<u8>, pos: int) -> Option<(Seq<char>, int)> {
    if pos + 2 > s.len() {
        None
    } else {
        let end = pos + 2 + bytes::u16_at(s, pos);
        if end > s.len() || !utf8::valid_utf8(s.subrange(pos + 2, end)) {
            None
        } else {
            Some((utf8::decode_utf8(s.subrange(pos + 2, end)), end))
        }
    }
}

/// Where a reader of a string at `pos` stops: behind the string, or behind the
/// last part of it that is there.
pub open spec fn str_stop(s: Seq<u8>, pos: int) -> int {
    if pos + 2 > s.len() {
        pos
    } else if pos + 2 + bytes::u16_at(s, pos) > s.len() {
        pos + 2
    } else {
        pos + 2 + bytes::u16_at(s, pos)
    }
}

/// Where a reader of a task at `pos` stops: behind the task, or behind the last
/// part of it that is there.
pub open spec fn task_stop(s: Seq<u8>, pos: int) -> int {
    if pos + 4 > s.len() {
        pos
    } else if pos + 8 > s.len() {
        pos + 4
    } else if pos + 12 > s.len() {
        pos + 8
    } else {
        str_stop(s, pos + 12)
    }
}

/// The task encoded at `pos` and the position after it, if there is one.
pub open spec fn task_at(s: Seq<u8>, pos: int) -> Option<(TaskView, int)> {
    if pos + 12 > s.len() {
        None
    } else {
        match str_at(s, pos + 12) {
            None => None,
            Some((comm, end)) => Some(
                (
                    TaskView {
                        comm,
                        tid: bytes::u32_at(s, pos),
                        tgid: bytes::u32_at(s, pos + 4),
                        prio: i32_of_bits(bytes::u32_at(s, pos + 8)),
                    },
                    end,
                ),
            ),
        }
    }
}

/// The event of the given id encoded at `pos`, if there is one.
pub open spec fn event_at(event_id: u32, s: Seq<u8>, pos: int) -> Option<EventView> {
    match task_at(s, pos) {
        None => None,
        Some((first, mid)) => if event_id == EVENT_CONTEXT_SWITCH {
            if mid + 4 > s.len() {
                None
            } else {
                match task_at(s, mid + 4) {
                    None => None,
                    Some((next, end)) => Some(
                        EventView::ContextSwitch {
                            prev: first,
                            prev_state: OffCpuState::of_code(bytes::u32_at(s, mid)),
                            next,
                        },
                    ),
                }
            }
        } else if event_id == EVENT_TRACE_MARK_BEGIN {
            match str_at(s, mid) {
                None => None,
                Some((name, end)) => Some(EventView::TraceMarkBegin { task: first, name }),
            }
        } else if event_id == EVENT_TRACE_MARK_END {
            Some(EventView::TraceMarkEnd { task: first })
        } else {
            None
        },
    }
}

/// A record as it lies in a ring buffer: its header and its payload, the
/// latter with the zero bytes that fill the record up to its aligned length.
pub ghost struct RecordView {
    /// Decoded record header.
    pub header: RecordHeader,
    /// Payload bytes.
    pub payload: Seq<u8>,
}

/// What a record says: when and where it was written, and the event.
pub ghost struct DecodedView {
    /// Event timestamp in nanoseconds.
    pub timestamp: u64,
    /// CPU id on which the record was written.
    pub cpu_id: u32,
    /// Per-CPU sequence number.
    pub seq: u64,
    /// What happened.
    pub event: EventView,
}

impl RecordView {
    /// What the record says, if it is well-formed and of a known event id.
    pub open spec fn decoded(self) -> Option<DecodedView> {
        if self.payload.len() < 12 {
            None
        } else {
            match event_at(self.header.event_id, self.payload, 12) {
                None => None,
                Some(event) => Some(
                    DecodedView {
                        timestamp: self.header.timestamp,
                        cpu_id: bytes::u32_at(self.payload, 0),
                        seq: bytes::u64_at(self.payload, 4),
                        event,
                    },
                ),
            }
        }
    }
}

/// Raw record consisting of a decoded header and borrowed payload bytes.
#[derive(Clone, Copy, Debug, Eq, PartialEq)]
pub struct RawRecord<'a> {
    /// Decoded record header.
    pub header: RecordHeader,
    /// Payload bytes, including any record-level padding after the logical
    /// payload.
    pub payload: &'a [u8],
}

impl<'a> View for RawRecord<'a> {
    type V = RecordView;

    open spec fn view(&self) -> RecordView {
        RecordView { header: self.header, payload: self.payload@ }
    }
}

/// Structured representation of the records that the library understands.
#[derive(Clone, Copy, Debug, Eq, PartialEq)]
pub enum DecodedRecord<'a> {
    /// CPU context switch record.
    ContextSwitch {
        /// Event timestamp in nanoseconds.
        timestamp: u64,
        /// CPU id on which the record was written.
        cpu_id: u32,
        /// Per-CPU sequence number.
        seq: u64,
        /// Task leaving the CPU.
        prev: OwnedTaskRef<'a>,
        /// Off-CPU state entered by `prev`.
        prev_state: OffCpuState,
        /// Task selected to run on the CPU.
        next: OwnedTaskRef<'a>,
    },
    /// Synchronous trace mark begin record.
    TraceMarkBegin {
        /// Event timestamp in nanoseconds.
        timestamp: u64,
        /// CPU id on which the record was written.
        cpu_id: u32,
        /// Per-CPU sequence number.
        seq: u64,
        /// Task associated with the trace mark.
        task: OwnedTaskRef<'a>,
        /// Trace mark name borrowed from the record payload.
        name: &'a str,
    },
    /// Synchronous trace mark end record.
    TraceMarkEnd {
        /// Event timestamp in nanoseconds.
        timestamp: u64,
        /// CPU id on which the record was written.
        cpu_id: u32,
        /// Per-CPU sequence number.
        seq: u64,
        /// Task associated with the trace mark.
        task: OwnedTaskRef<'a>,
    },
}

impl<'a> View for DecodedRecord<'a> {
    type V = DecodedView;

    open spec fn view(&self) -> DecodedView {
        match *self {
            DecodedRecord::ContextSwitch { timestamp, cpu_id, seq, prev, prev_state, next } =>
                DecodedView {
                timestamp,
                cpu_id,
                seq,
                event: EventView::ContextSwitch { prev: prev@, prev_state, next: next@ },
            },
            DecodedRecord::TraceMarkBegin { timestamp, cpu_id, seq, task, name } => DecodedView {
                timestamp,
                cpu_id,
                seq,
                event: EventView::TraceMarkBegin { task: task@, name: name@ },
            },
            DecodedRecord::TraceMarkEnd { timestamp, cpu_id, seq, task } => DecodedView {
                timestamp,
                cpu_id,
                seq,
                event: EventView::TraceMarkEnd { task: task@ },
            },
        }
    }
}

/// Writes a payload into a byte slice, front to back.
pub struct PayloadWriter<'a> {
    /// Space for the payload.
    pub bytes: &'a mut [u8],
    /// Number of bytes written so far.
    pub pos: usize,
}

impl<'a> PayloadWriter<'a> {
    /// The position is in the space.
    pub open spec fn wf(self) -> bool {
        self.pos <= self.bytes@.len()
    }

    /// The bytes written so far.
    pub open spec fn contents(self) -> Seq<u8> {
        self.bytes@.subrange(0, self.pos as int)
    }

    /// The writer `after` holds `chunk` behind what `self` holds; or `chunk` may
    /// not be written or there is no room for it, the result says so, and what
    /// `self` holds is still there.
    pub open spec fn put_outcome(
        self,
        after: PayloadWriter<'a>,
        chunk: Seq<u8>,
        allowed: bool,
        result: Result<(), DropReason>,
    ) -> bool {
        &&& after.wf()
        &&& after.bytes@.len() == self.bytes@.len()
        &&& if allowed && self.pos + chunk.len() <= self.bytes@.len() {
            &&& result == Ok::<(), DropReason>(())
            &&& after.pos == self.pos + chunk.len()
            &&& after.contents() == self.contents() + chunk
        } else {
            &&& result == Err::<(), DropReason>(DropReason::RecordTooLarge)
            &&& self.contents().is_prefix_of(after.contents())
        }
    }

    /// Starts an empty payload in `bytes`.
    pub fn new(bytes: &'a mut [u8]) -> (writer: Self)
        ensures
            writer.wf(),
            writer.bytes@ == old(bytes)@,
            writer.contents() == Seq::<u8>::empty(),
            final(writer.bytes)@ == final(bytes)@,
    {
        PayloadWriter { bytes, pos: 0 }
    }

    /// Returns the bytes written so far.
    pub fn written(&self) -> (out: &[u8])
        requires
            self.wf(),
        ensures
            out@ == self.contents(),
    {
        &self.bytes[0..self.pos]
    }

    /// Appends raw bytes.
    pub fn put(&mut self, chunk: &[u8]) -> (result: Result<(), DropReason>)
        requires
            old(self).wf(),
        ensures
            old(self).put_outcome(*final(self), chunk@, true, result),
            result is Err ==> final(self).pos == old(self).pos && final(self).bytes@ == old(
                self,
            ).bytes@,
            final(final(self).bytes)@ == final(old(self).bytes)@,
    {
        if self.bytes.len() - self.pos < chunk.len() {
            return Err(DropReason::RecordTooLarge);
        }
        let ghost before = self.contents();
        copy_at(self.bytes, self.pos, chunk);
        self.pos = self.pos + chunk.len();
        assert(self.contents() =~= before + chunk@);
        Ok(())
    }

    /// Appends a `u16`.
    pub fn u16(&mut self, value: u16) -> (result: Result<(), DropReason>)
        requires
            old(self).wf(),
        ensures
            old(self).put_outcome(*final(self), bytes::le_bytes(value as nat, 2), true, result),
            result is Err ==> final(self).pos == old(self).pos && final(self).bytes@ == old(
                self,
            ).bytes@,
            final(final(self).bytes)@ == final(old(self).bytes)@,
    {
        broadcast use bytes::lemma_le_bytes_len;

        if self.bytes.len() - self.pos < 2 {
            return Err(DropReason::RecordTooLarge);
        }
        let ghost before = self.contents();
        write_u16_at(self.bytes, self.pos, value);
        self.pos = self.pos + 2;
        assert(self.contents() =~= before + bytes::le_bytes(value as nat, 2));
        Ok(())
    }

    /// Appends a `u32`.
    pub fn u32(&mut self, value: u32) -> (result: Result<(), DropReason>)
        requires
            old(self).wf(),
        ensures
            old(self).put_outcome(*final(self), bytes::le_bytes(value as nat, 4), true, result),
            result is Err ==> final(self).pos == old(self).pos && final(self).bytes@ == old(
                self,
            ).bytes@,
            final(final(self).bytes)@ == final(old(self).bytes)@,
    {
        broadcast use bytes::lemma_le_bytes_len;

        if self.bytes.len() - self.pos < 4 {
            return Err(DropReason::RecordTooLarge);
        }
        let ghost before = self.contents();
        write_u32_at(self.bytes, self.pos, value);
        self.pos = self.pos + 4;
        assert(self.contents() =~= before + bytes::le_bytes(value as nat, 4));
        Ok(())
    }

    /// Appends an `i32`.
    pub fn i32(&mut self, value: i32) -> (result: Result<(), DropReason>)
        requires
            old(self).wf(),
        ensures
            old(self).put_outcome(
                *final(self),
                bytes::le_bytes(i32_bits(value) as nat, 4),
                true,
                result,
            ),
            result is Err ==> final(self).pos == old(self).pos && final(self).bytes@ == old(
                self,
            ).bytes@,
            final(final(self).bytes)@ == final(old(self).bytes)@,
    {
        proof {
            lemma_i32_cast(value);
        }
        self.u32(value as u32)
    }

    /// Appends a `u64`.
    pub fn u64(&mut self, value: u64) -> (result: Result<(), DropReason>)
        requires
            old(self).wf(),
        ensures
            old(self).put_outcome(*final(self), bytes::le_bytes(value as nat, 8), true, result),
            result is Err ==> final(self).pos == old(self).pos && final(self).bytes@ == old(
                self,
            ).bytes@,
            final(final(self).bytes)@ == final(old(self).bytes)@,
    {
        broadcast use bytes::lemma_le_bytes_len;

        if self.bytes.len() - self.pos < 8 {
            return Err(DropReason::RecordTooLarge);
        }
        let ghost before = self.contents();
        write_u64_at(self.bytes, self.pos, value);
        self.pos = self.pos + 8;
        assert(self.contents() =~= before + bytes::le_bytes(value as nat, 8));
        Ok(())
    }

    /// Appends a string.
    pub fn str(&mut self, value: &str) -> (result: Result<(), DropReason>)
        requires
            old(self).wf(),
        ensures
            old(self).put_outcome(*final(self), str_bytes(value@), str_encodable(value@), result),
            final(final(self).bytes)@ == final(old(self).bytes)@,
    {
        broadcast use bytes::lemma_le_bytes_len;

        let raw = value.as_bytes();
        let len: usize = raw.len();
        if len > 0xffff {
            return Err(DropReason::RecordTooLarge);
        }
        let ghost before = self.contents();
        self.u16(len as u16)?;
        self.put(raw)?;
        assert(self.contents() =~= before + str_bytes(value@));
        Ok(())
    }

    /// Appends a task.
    pub fn task(&mut self, task: TaskRef<'_>) -> (result: Result<(), DropReason>)
        requires
            old(self).wf(),
        ensures
            old(self).put_outcome(
                *final(self),
                task_bytes(task@),
                str_encodable(task@.comm),
                result,
            ),
            final(final(self).bytes)@ == final(old(self).bytes)@,
    {
        broadcast use bytes::lemma_le_bytes_len;

        let ghost before = self.contents();
        self.u32(task.tid)?;
        self.u32(task.tgid)?;
        self.i32(task.prio)?;
        self.str(task.comm)?;
        assert(self.contents() =~= before + task_bytes(task@));
        Ok(())
    }
}

/// Casting an `i32` to `u32` and back follows its bits.
proof fn lemma_i32_cast(v: i32)
    ensures
        v as u32 == i32_bits(v),
{
    assert(v >= 0 ==> v as u32 == v) by (bit_vector);
    assert(v < 0 ==> v as u32 == v + 0x1_0000_0000) by (bit_vector);
}

/// Casting a `u32` to `i32` follows its bits.
proof fn lemma_u32_cast(v: u32)
    ensures
        v as i32 == i32_of_bits(v),
{
    assert(v <= 0x7fff_ffff ==> v as i32 == v) by (bit_vector);
    assert(v > 0x7fff_ffff ==> v as i32 == v - 0x1_0000_0000) by (bit_vector);
}

/// Writes the payload of a context switch.
pub fn encode_context_switch(
    out: &mut PayloadWriter<'_>,
    cpu_id: u32,
    seq: u64,
    prev: TaskRef<'_>,
    prev_state: OffCpuState,
    next: TaskRef<'_>,
) -> (result: Result<(), DropReason>)
    requires
        old(out).wf(),
    ensures
        old(out).put_outcome(
            *final(out),
            payload_bytes(
                cpu_id,
                seq,
                EventView::ContextSwitch { prev: prev@, prev_state, next: next@ },
            ),
            str_encodable(prev@.comm) && str_encodable(next@.comm),
            result,
        ),
        final(final(out).bytes)@ == final(old(out).bytes)@,
{
    broadcast use bytes::lemma_le_bytes_len;

    let ghost before = out.contents();
    let ghost event = EventView::ContextSwitch { prev: prev@, prev_state, next: next@ };
    out.u32(cpu_id)?;
    out.u64(seq)?;
    out.task(prev)?;
    out.u32(prev_state.encode())?;
    out.task(next)?;
    assert(out.contents() =~= before + payload_bytes(cpu_id, seq, event));
    Ok(())
}

/// Writes the payload of a trace mark begin.
pub fn encode_trace_mark_begin(
    out: &mut PayloadWriter<'_>,
    cpu_id: u32,
    seq: u64,
    task: TaskRef<'_>,
    name: &str,
) -> (result: Result<(), DropReason>)
    requires
        old(out).wf(),
    ensures
        old(out).put_outcome(
            *final(out),
            payload_bytes(cpu_id, seq, EventView::TraceMarkBegin { task: task@, name: name@ }),
            str_encodable(task@.comm) && str_encodable(name@),
            result,
        ),
        final(final(out).bytes)@ == final(old(out).bytes)@,
{
    broadcast use bytes::lemma_le_bytes_len;

    let ghost before = out.contents();
    let ghost event = EventView::TraceMarkBegin { task: task@, name: name@ };
    out.u32(cpu_id)?;
    out.u64(seq)?;
    out.task(task)?;
    out.str(name)?;
    assert(out.contents() =~= before + payload_bytes(cpu_id, seq, event));
    Ok(())
}

/// Writes the payload of a trace mark end.
pub fn encode_trace_mark_end(
    out: &mut PayloadWriter<'_>,
    cpu_id: u32,
    seq: u64,
    task: TaskRef<'_>,
) -> (result: Result<(), DropReason>)
    requires
        old(out).wf(),
    ensures
        old(out).put_outcome(
            *final(out),
            payload_bytes(cpu_id, seq, EventView::TraceMarkEnd { task: task@ }),
            str_encodable(task@.comm),
            result,
        ),
        final(final(out).bytes)@ == final(old(out).bytes)@,
{
    broadcast use bytes::lemma_le_bytes_len;

    let ghost before = out.contents();
    let ghost event = EventView::TraceMarkEnd { task: task@ };
    out.u32(cpu_id)?;
    out.u64(seq)?;
    out.task(task)?;
    assert(out.contents() =~= before + payload_bytes(cpu_id, seq, event));
    Ok(())
}

impl<'a> TraceEvent<'a> {
    /// Returns the record kind under which the event is stored.
    pub fn kind(self) -> (kind: RecordKind)
        ensures
            kind == self@.kind(),
    {
        match self {
            TraceEvent::ContextSwitch { .. } => RecordKind::ContextSwitch,
            TraceEvent::TraceMarkBegin { .. } => RecordKind::DurationBegin,
            TraceEvent::TraceMarkEnd { .. } => RecordKind::DurationEnd,
        }
    }

    /// Returns the event id under which the event is stored.
    pub fn event_id(self) -> (id: u32)
        ensures
            id == self@.event_id(),
    {
        match self {
            TraceEvent::ContextSwitch { .. } => EVENT_CONTEXT_SWITCH,
            TraceEvent::TraceMarkBegin { .. } => EVENT_TRACE_MARK_BEGIN,
            TraceEvent::TraceMarkEnd { .. } => EVENT_TRACE_MARK_END,
        }
    }

    /// Writes the payload of the event.
    pub fn encode(
        self,
        out: &mut PayloadWriter<'_>,
        cpu_id: u32,
        seq: u64,
    ) -> (result: Result<(), DropReason>)
        requires
            old(out).wf(),
        ensures
            old(out).put_outcome(
                *final(out),
                payload_bytes(cpu_id, seq, self@),
                event_encodable(self@),
                result,
            ),
            final(final(out).bytes)@ == final(old(out).bytes)@,
    {
        match self {
            TraceEvent::ContextSwitch { prev, prev_state, next } => encode_context_switch(
                out,
                cpu_id,
                seq,
                prev,
                prev_state,
                next,
            ),
            TraceEvent::TraceMarkBegin { task, name } => encode_trace_mark_begin(
                out,
                cpu_id,
                seq,
                task,
                name,
            ),
            TraceEvent::TraceMarkEnd { task } => encode_trace_mark_end(out, cpu_id, seq, task),
        }
    }
}

/// Error of `core::str::from_utf8`.
#[verifier::external_type_specification]
#[verifier::external_body]
pub struct ExUtf8Error(core::str::Utf8Error);

/// `core::str::from_utf8` accepts exactly the byte slices that are valid UTF-8,
/// and returns the string whose UTF-8 encoding the slice is.
pub assume_specification[ core::str::from_utf8 ](v: &[u8]) -> (result: Result<
    &str,
    core::str::Utf8Error,
>)
    ensures
        result is Ok <==> utf8::valid_utf8(v@),
        result matches Ok(text) ==> utf8::encode_utf8(text@) == v@,
;

/// Reads a payload, front to back.
pub struct PayloadReader<'a> {
    /// The payload.
    pub bytes: &'a [u8],
    /// Number of bytes read so far.
    pub pos: usize,
}

impl<'a> PayloadReader<'a> {
    /// The position is inside the payload.
    pub open spec fn wf(self) -> bool {
        self.pos <= self.bytes@.len()
    }

    /// The reader `after` stands `len` bytes behind `self`.
    pub open spec fn moved(self, after: PayloadReader<'a>, len: int) -> bool {
        &&& after.bytes == self.bytes
        &&& after.pos == self.pos + len
        &&& after.wf()
    }

    /// Starts at the front of `bytes`.
    pub fn new(bytes: &'a [u8]) -> (reader: Self)
        ensures
            reader == (PayloadReader { bytes, pos: 0 }),
            reader.wf(),
    {
        PayloadReader { bytes, pos: 0 }
    }

    /// Takes the next `len` bytes.
    pub fn get(&mut self, len: usize) -> (chunk: Option<&'a [u8]>)
        requires
            old(self).wf(),
        ensures
            chunk is Some <==> old(self).pos + len <= old(self).bytes@.len(),
            chunk matches Some(chunk) ==> {
                &&& old(self).moved(*final(self), len as int)
                &&& chunk@ == old(self).bytes@.subrange(
                    old(self).pos as int,
                    old(self).pos + len,
                )
            },
            chunk is None ==> *final(self) == *old(self),
    {
        if self.bytes.len() - self.pos < len {
            return None;
        }
        let out = &self.bytes[self.pos..self.pos + len];
        self.pos = self.pos + len;
        Some(out)
    }

    /// Takes a `u16`.
    pub fn u16(&mut self) -> (value: Option<u16>)
        requires
            old(self).wf(),
        ensures
            value is Some <==> old(self).pos + 2 <= old(self).bytes@.len(),
            value is None ==> *final(self) == *old(self),
            value matches Some(v) ==> {
                &&& old(self).moved(*final(self), 2)
                &&& v == bytes::u16_at(old(self).bytes@, old(self).pos as int)
            },
    {
        let chunk = self.get(2)?;
        assert(chunk@.subrange(0, 2) =~= chunk@);
        Some(read_u16_at(chunk, 0))
    }

    /// Takes a `u32`.
    pub fn u32(&mut self) -> (value: Option<u32>)
        requires
            old(self).wf(),
        ensures
            value is Some <==> old(self).pos + 4 <= old(self).bytes@.len(),
            value is None ==> *final(self) == *old(self),
            value matches Some(v) ==> {
                &&& old(self).moved(*final(self), 4)
                &&& v == bytes::u32_at(old(self).bytes@, old(self).pos as int)
            },
    {
        let chunk = self.get(4)?;
        assert(chunk@.subrange(0, 4) =~= chunk@);
        Some(read_u32_at(chunk, 0))
    }

    /// Takes an `i32`.
    pub fn i32(&mut self) -> (value: Option<i32>)
        requires
            old(self).wf(),
        ensures
            value is Some <==> old(self).pos + 4 <= old(self).bytes@.len(),
            value is None ==> *final(self) == *old(self),
            value matches Some(v) ==> {
                &&& old(self).moved(*final(self), 4)
                &&& v == i32_of_bits(bytes::u32_at(old(self).bytes@, old(self).pos as int))
            },
    {
        let bits = self.u32()?;
        proof {
            lemma_u32_cast(bits);
        }
        Some(bits as i32)
    }

    /// Takes a `u64`.
    pub fn u64(&mut self) -> (value: Option<u64>)
        requires
            old(self).wf(),
        ensures
            value is Some <==> old(self).pos + 8 <= old(self).bytes@.len(),
            value is None ==> *final(self) == *old(self),
            value matches Some(v) ==> {
                &&& old(self).moved(*final(self), 8)
                &&& v == bytes::u64_at(old(self).bytes@, old(self).pos as int)
            },
    {
        let chunk = self.get(8)?;
        assert(chunk@.subrange(0, 8) =~= chunk@);
        Some(read_u64_at(chunk, 0))
    }

    /// Takes a string.
    pub fn str(&mut self) -> (value: Option<&'a str>)
        requires
            old(self).wf(),
        ensures
            match (value, str_at(old(self).bytes@, old(self).pos as int)) {
                (Some(text), Some((chars, end))) => text@ == chars && final(self).pos == end,
                (None, None) => true,
                _ => false,
            },
            old(self).moved(
                *final(self),
                str_stop(old(self).bytes@, old(self).pos as int) - old(self).pos,
            ),
    {
        let len = self.u16()? as usize;
        let raw = self.get(len)?;
        match core::str::from_utf8(raw) {
            Ok(text) => {
                proof {
                    utf8::encode_utf8_decode_utf8(text@);
                }
                Some(text)
            },
            Err(_) => None,
        }
    }

    /// Takes a task.
    pub fn task(&mut self) -> (value: Option<OwnedTaskRef<'a>>)
        requires
            old(self).wf(),
        ensures
            match (value, task_at(old(self).bytes@, old(self).pos as int)) {
                (Some(task), Some((view, end))) => task@ == view && final(self).pos == end,
                (None, None) => true,
                _ => false,
            },
            old(self).moved(
                *final(self),
                task_stop(old(self).bytes@, old(self).pos as int) - old(self).pos,
            ),
    {
        let tid = self.u32()?;
        let tgid = self.u32()?;
        let prio = self.i32()?;
        let comm = self.str()?;
        Some(OwnedTaskRef { comm, tid, tgid, prio })
    }
}

impl<'a> RawRecord<'a> {
    /// Decodes a raw record payload into a structured record.
    ///
    /// # Returns
    ///
    /// Returns `Some(DecodedRecord)` when the event id and payload are
    /// recognized and valid. Returns `None` for unsupported event ids,
    /// malformed payloads, or invalid UTF-8 strings.
    pub fn decode(self) -> (record: Option<DecodedRecord<'a>>)
        ensures
            match (record, self@.decoded()) {
                (Some(record), Some(view)) => record@ == view,
                (None, None) => true,
                _ => false,
            },
    {
        let mut reader = PayloadReader::new(self.payload);
        let cpu_id = reader.u32()?;
        let seq = reader.u64()?;
        let timestamp = self.header.timestamp;
        match self.header.event_id {
            EVENT_CONTEXT_SWITCH => {
                let prev = reader.task()?;
                let prev_state = OffCpuState::decode(reader.u32()?);
                let next = reader.task()?;
                Some(DecodedRecord::ContextSwitch { timestamp, cpu_id, seq, prev, prev_state, next })
            },
            EVENT_TRACE_MARK_BEGIN => {
                let task = reader.task()?;
                let name = reader.str()?;
                Some(DecodedRecord::TraceMarkBegin { timestamp, cpu_id, seq, task, name })
            },
            EVENT_TRACE_MARK_END => {
                let task = reader.task()?;
                Some(DecodedRecord::TraceMarkEnd { timestamp, cpu_id, seq, task })
            },
            _ => None,
        }
    }
}

/// The bits of a signed number give the number back, and the reverse.
proof fn lemma_i32_bits_round_trip(v: i32, u: u32)
    ensures
        i32_of_bits(i32_bits(v)) == v,
        i32_bits(i32_of_bits(u)) == u,
{
}

/// An integer inside `s` reads as what its bytes encode.
proof fn lemma_int_at(s: Seq<u8>, pos: int, len: nat, v: nat)
    requires
        0 <= pos,
        pos + len <= s.len(),
        s.subrange(pos, pos + len) == bytes::le_bytes(v, len),
        v < bytes::pow256(len),
    ensures
        bytes::le_value(s.subrange(pos, pos + len)) == v,
{
    bytes::lemma_le_value_of_bytes(v, len);
}

/// A string whose encoding stands at `pos` is read there.
proof fn lemma_str_at(s: Seq<u8>, pos: int, text: Seq<char>)
    requires
        0 <= pos,
        pos + str_bytes(text).len() <= s.len(),
        s.subrange(pos, pos + str_bytes(text).len()) == str_bytes(text),
        utf8::encode_utf8(text).len() <= 0xffff,
    ensures
        str_at(s, pos) == Some((text, pos + str_bytes(text).len())),
{
    broadcast use bytes::lemma_le_bytes_len;

    let raw = utf8::encode_utf8(text);
    let chunk = str_bytes(text);
    bytes::lemma_pow256_widths();
    assert(s.subrange(pos, pos + 2) =~= bytes::le_bytes(raw.len(), 2)) by {
        assert(chunk.subrange(0, 2) =~= bytes::le_bytes(raw.len(), 2));
        assert(s.subrange(pos, pos + 2) =~= s.subrange(pos, pos + chunk.len()).subrange(0, 2));
    }
    lemma_int_at(s, pos, 2, raw.len());
    let end = pos + chunk.len();
    assert(s.subrange(pos + 2, end) =~= raw) by {
        assert(chunk.subrange(2, chunk.len() as int) =~= raw);
        assert(s.subrange(pos + 2, end) =~= s.subrange(pos, end).subrange(2, chunk.len() as int));
    }
    utf8::encode_utf8_valid_utf8(text);
    utf8::encode_utf8_decode_utf8(text);
}

/// A task whose encoding stands at `pos` is read there.
proof fn lemma_task_at(s: Seq<u8>, pos: int, task: TaskView)
    requires
        0 <= pos,
        pos + task_bytes(task).len() <= s.len(),
        s.subrange(pos, pos + task_bytes(task).len()) == task_bytes(task),
        utf8::encode_utf8(task.comm).len() <= 0xffff,
    ensures
        task_at(s, pos) == Some((task, pos + task_bytes(task).len())),
{
    broadcast use bytes::lemma_le_bytes_len;

    let chunk = task_bytes(task);
    let n = chunk.len() as int;
    let end = pos + n;
    let whole = s.subrange(pos, end);
    bytes::lemma_pow256_widths();
    assert(s.subrange(pos, pos + 4) =~= bytes::le_bytes(task.tid as nat, 4)) by {
        assert(chunk.subrange(0, 4) =~= bytes::le_bytes(task.tid as nat, 4));
        assert(s.subrange(pos, pos + 4) =~= whole.subrange(0, 4));
    }
    assert(s.subrange(pos + 4, pos + 8) =~= bytes::le_bytes(task.tgid as nat, 4)) by {
        assert(chunk.subrange(4, 8) =~= bytes::le_bytes(task.tgid as nat, 4));
        assert(s.subrange(pos + 4, pos + 8) =~= whole.subrange(4, 8));
    }
    assert(s.subrange(pos + 8, pos + 12) =~= bytes::le_bytes(i32_bits(task.prio) as nat, 4)) by {
        assert(chunk.subrange(8, 12) =~= bytes::le_bytes(i32_bits(task.prio) as nat, 4));
        assert(s.subrange(pos + 8, pos + 12) =~= whole.subrange(8, 12));
    }
    assert(s.subrange(pos + 12, end) =~= str_bytes(task.comm)) by {
        assert(chunk.subrange(12, n) =~= str_bytes(task.comm));
        assert(s.subrange(pos + 12, end) =~= whole.subrange(12, n));
    }
    lemma_int_at(s, pos, 4, task.tid as nat);
    lemma_int_at(s, pos + 4, 4, task.tgid as nat);
    lemma_int_at(s, pos + 8, 4, i32_bits(task.prio) as nat);
    lemma_i32_bits_round_trip(task.prio, 0);
    lemma_str_at(s, pos + 12, task.comm);
}

/// What a record says is what was encoded in it.
///
/// Decoding a record whose payload starts with the encoding of an event gives
/// back the CPU id, the sequence number and the event, whatever bytes fill the
/// record up behind the encoding. It holds for every event whose string lengths
/// can be stored.
pub proof fn law_decode_encoded(
    header: RecordHeader,
    cpu_id: u32,
    seq: u64,
    event: EventView,
    fill: Seq<u8>,
)
    requires
        header.event_id == event.event_id(),
        event_encodable(event),
    ensures
        (RecordView { header, payload: payload_bytes(cpu_id, seq, event) + fill }).decoded()
            == Some(
            DecodedView { timestamp: header.timestamp, cpu_id, seq, event: event.as_read() },
        ),
{
    broadcast use bytes::lemma_le_bytes_len;

    let s = payload_bytes(cpu_id, seq, event) + fill;
    let body = event_bytes(event);
    bytes::lemma_pow256_widths();
    assert(s.subrange(0, 4) =~= bytes::le_bytes(cpu_id as nat, 4));
    assert(s.subrange(4, 12) =~= bytes::le_bytes(seq as nat, 8));
    lemma_int_at(s, 0, 4, cpu_id as nat);
    lemma_int_at(s, 4, 8, seq as nat);
    assert(s.subrange(12, 12int + body.len()) =~= body);
    match event {
        EventView::ContextSwitch { prev, prev_state, next } => {
            let a = 12int + task_bytes(prev).len();
            assert(s.subrange(12, a) =~= task_bytes(prev));
            assert(s.subrange(a, a + 4) =~= bytes::le_bytes(prev_state.code() as nat, 4));
            assert(s.subrange(a + 4, a + 4 + task_bytes(next).len()) =~= task_bytes(next));
            lemma_task_at(s, 12, prev);
            lemma_int_at(s, a, 4, prev_state.code() as nat);
            lemma_task_at(s, a + 4, next);
        },
        EventView::TraceMarkBegin { task, name } => {
            let a = 12int + task_bytes(task).len();
            assert(s.subrange(12, a) =~= task_bytes(task));
            assert(s.subrange(a, a + str_bytes(name).len()) =~= str_bytes(name));
            lemma_task_at(s, 12, task);
            lemma_str_at(s, a, name);
        },
        EventView::TraceMarkEnd { task } => {
            assert(s.subrange(12, 12int + task_bytes(task).len()) =~= task_bytes(task));
            lemma_task_at(s, 12, task);
        },
    }
}

/// An integer inside `s` is encoded by the bytes that it was read from.
proof fn lemma_int_source(s: Seq<u8>, pos: int)
    requires
        0 <= pos,
    ensures
        pos + 2 <= s.len() ==> bytes::le_bytes(bytes::u16_at(s, pos) as nat, 2) == s.subrange(
            pos,
            pos + 2,
        ),
        pos + 4 <= s.len() ==> bytes::le_bytes(bytes::u32_at(s, pos) as nat, 4) == s.subrange(
            pos,
            pos + 4,
        ),
        pos + 8 <= s.len() ==> bytes::le_bytes(bytes::u64_at(s, pos) as nat, 8) == s.subrange(
            pos,
            pos + 8,
        ),
{
    bytes::lemma_pow256_widths();
    if pos + 2 <= s.len() {
        bytes::lemma_le_bytes_of_value(s.subrange(pos, pos + 2));
        bytes::lemma_le_value_bound(s.subrange(pos, pos + 2));
    }
    if pos + 4 <= s.len() {
        bytes::lemma_le_bytes_of_value(s.subrange(pos, pos + 4));
        bytes::lemma_le_value_bound(s.subrange(pos, pos + 4));
    }
    if pos + 8 <= s.len() {
        bytes::lemma_le_bytes_of_value(s.subrange(pos, pos + 8));
        bytes::lemma_le_value_bound(s.subrange(pos, pos + 8));
    }
}

/// A string that is read at `pos` is encoded there.
proof fn lemma_str_source(s: Seq<u8>, pos: int)
    requires
        0 <= pos,
    ensures
        str_at(s, pos) matches Some((text, end)) ==> {
            &&& pos <= end <= s.len()
            &&& s.subrange(pos, end) == str_bytes(text)
        },
{
    if let Some((text, end)) = str_at(s, pos) {
        broadcast use bytes::lemma_le_bytes_len;

        lemma_int_source(s, pos);
        let raw = s.subrange(pos + 2, end);
        utf8::decode_utf8_encode_utf8(raw);
        assert(s.subrange(pos, end) =~= s.subrange(pos, pos + 2) + raw);
    }
}

/// A task that is read at `pos` is encoded there.
proof fn lemma_task_source(s: Seq<u8>, pos: int)
    requires
        0 <= pos,
    ensures
        task_at(s, pos) matches Some((task, end)) ==> {
            &&& pos <= end <= s.len()
            &&& s.subrange(pos, end) == task_bytes(task)
        },
{
    if let Some((task, end)) = task_at(s, pos) {
        lemma_int_source(s, pos);
        lemma_int_source(s, pos + 4);
        lemma_int_source(s, pos + 8);
        lemma_i32_bits_round_trip(0, bytes::u32_at(s, pos + 8));
        lemma_str_source(s, pos + 12);
        assert(s.subrange(pos, end) =~= s.subrange(pos, pos + 4) + s.subrange(pos + 4, pos + 8)
            + s.subrange(pos + 8, pos + 12) + s.subrange(pos + 12, end));
    }
}

/// A record says only what is encoded in it.
///
/// When a record decodes, its header carries the timestamp and the event id of
/// what was decoded, and its payload starts with the encoding of it.
pub proof fn law_decoded_is_encoded(record: RecordView)
    ensures
        record.decoded() matches Some(said) ==> {
            &&& said.timestamp == record.header.timestamp
            &&& said.event.event_id() == record.header.event_id
            &&& said.event.as_read() == said.event
            &&& payload_bytes(said.cpu_id, said.seq, said.event).is_prefix_of(record.payload)
        },
{
    if let Some(said) = record.decoded() {
        let s = record.payload;
        lemma_int_source(s, 0);
        lemma_int_source(s, 4);
        lemma_task_source(s, 12);
        let (first, mid) = task_at(s, 12)->0;
        let end = match said.event {
            EventView::ContextSwitch { prev, prev_state, next } => {
                lemma_int_source(s, mid);
                lemma_task_source(s, mid + 4);
                let (_, end) = task_at(s, mid + 4)->0;
                assert(s.subrange(12, end) =~= s.subrange(12, mid) + s.subrange(mid, mid + 4)
                    + s.subrange(mid + 4, end));
                end
            },
            EventView::TraceMarkBegin { task, name } => {
                lemma_str_source(s, mid);
                let (_, end) = str_at(s, mid)->0;
                assert(s.subrange(12, end) =~= s.subrange(12, mid) + s.subrange(mid, end));
                end
            },
            EventView::TraceMarkEnd { task } => mid,
        };
        let whole = payload_bytes(said.cpu_id, said.seq, said.event);
        assert(s.subrange(12, end) == event_bytes(said.event));
        assert(whole =~= s.subrange(0, 4) + s.subrange(4, 12) + s.subrange(12, end));
        assert(whole =~= s.subrange(0, end));
    }
}

/// Where the parts of a task stand in its encoding: the thread id, the group id, the
/// priority in two's complement, the length of the name, and the name in UTF-8.
proof fn lemma_task_layout(task: TaskView)
    requires
        str_encodable(task.comm),
    ensures
        ({
            let s = task_bytes(task);
            let name = utf8::encode_utf8(task.comm);
            &&& s.len() == 14 + name.len()
            &&& bytes::u32_at(s, 0) == task.tid
            &&& bytes::u32_at(s, 4) == task.tgid
            &&& bytes::u32_at(s, 8) == (if task.prio < 0 {
                task.prio + 0x1_0000_0000
            } else {
                task.prio as int
            })
            &&& bytes::u16_at(s, 12) == name.len()
            &&& s.subrange(14, 14 + name.len() as int) == name
        }),
{
    broadcast use bytes::lemma_le_bytes_len;

    bytes::lemma_int_round_trip();
    let s = task_bytes(task);
    let name = utf8::encode_utf8(task.comm);
    assert(s.subrange(0, 4) =~= bytes::le_bytes(task.tid as nat, 4));
    assert(s.subrange(4, 8) =~= bytes::le_bytes(task.tgid as nat, 4));
    assert(s.subrange(8, 12) =~= bytes::le_bytes(i32_bits(task.prio) as nat, 4));
    assert(s.subrange(12, 14) =~= bytes::le_bytes(name.len(), 2));
    let len = name.len() as u16;
    assert(bytes::le_value(bytes::le_bytes(len as nat, 2)) == len);
    assert(s.subrange(14, 14 + name.len() as int) =~= name);
}

/// A task stands at `at` of a payload: the thread id, the group id, the priority in
/// two's complement, the length of the name, and the name in UTF-8.
pub open spec fn task_stands(s: Seq<u8>, at: int, task: TaskView) -> bool {
    let name = utf8::encode_utf8(task.comm);
    &&& at + 14 + name.len() <= s.len()
    &&& bytes::u32_at(s, at) == task.tid
    &&& bytes::u32_at(s, at + 4) == task.tgid
    &&& bytes::u32_at(s, at + 8) == (if task.prio < 0 {
        task.prio + 0x1_0000_0000
    } else {
        task.prio as int
    })
    &&& bytes::u16_at(s, at + 12) == name.len()
    &&& s.subrange(at + 14, at + 14 + name.len()) == name
}

/// A task stands where its encoding is.
proof fn lemma_task_stands(s: Seq<u8>, at: int, task: TaskView)
    requires
        str_encodable(task.comm),
        0 <= at,
        at + task_bytes(task).len() <= s.len(),
        s.subrange(at, at + task_bytes(task).len()) == task_bytes(task),
    ensures
        task_stands(s, at, task),
        task_bytes(task).len() == 14 + utf8::encode_utf8(task.comm).len(),
{
    lemma_task_layout(task);
    let t = task_bytes(task);
    let n = utf8::encode_utf8(task.comm).len();
    assert forall|i: int| 0 <= i < t.len() implies #[trigger] t[i] == s[at + i] by {
        assert(s.subrange(at, at + t.len())[i] == s[at + i]);
    }
    assert(t.subrange(0, 4) =~= s.subrange(at, at + 4));
    assert(t.subrange(4, 8) =~= s.subrange(at + 4, at + 8));
    assert(t.subrange(8, 12) =~= s.subrange(at + 8, at + 12));
    assert(t.subrange(12, 14) =~= s.subrange(at + 12, at + 14));
    assert(t.subrange(14, 14 + n as int) =~= s.subrange(at + 14, at + 14 + n));
}

/// Where the parts of a payload stand.
///
/// The CPU id comes first, then the sequence number, then the task. A context switch
/// goes on with the number of the state and the next task; the begin of a trace mark
/// with the length of the name and the name. Nothing else is in the payload. The
/// event id and the kind tell the events apart.
pub proof fn law_payload_layout(cpu_id: u32, seq: u64, event: EventView)
    requires
        event_encodable(event),
    ensures
        ({
            let s = payload_bytes(cpu_id, seq, event);
            &&& bytes::u32_at(s, 0) == cpu_id
            &&& bytes::u64_at(s, 4) == seq
            &&& match event {
                EventView::ContextSwitch { prev, prev_state, next } => {
                    let mid = 26 + utf8::encode_utf8(prev.comm).len() as int;
                    &&& s.len() == mid + 4 + 14 + utf8::encode_utf8(next.comm).len()
                    &&& task_stands(s, 12, prev)
                    &&& bytes::u32_at(s, mid) == prev_state.code()
                    &&& task_stands(s, mid + 4, next)
                    &&& event.event_id() == 1
                    &&& event.kind() == RecordKind::ContextSwitch
                },
                EventView::TraceMarkBegin { task, name } => {
                    let mid = 26 + utf8::encode_utf8(task.comm).len() as int;
                    let text = utf8::encode_utf8(name);
                    &&& s.len() == mid + 2 + text.len()
                    &&& task_stands(s, 12, task)
                    &&& bytes::u16_at(s, mid) == text.len()
                    &&& s.subrange(mid + 2, s.len() as int) == text
                    &&& event.event_id() == 2
                    &&& event.kind() == RecordKind::DurationBegin
                },
                EventView::TraceMarkEnd { task } => {
                    &&& s.len() == 26 + utf8::encode_utf8(task.comm).len()
                    &&& task_stands(s, 12, task)
                    &&& event.event_id() == 3
                    &&& event.kind() == RecordKind::DurationEnd
                },
            }
        }),
{
    broadcast use bytes::lemma_le_bytes_len;

    bytes::lemma_int_round_trip();
    let s = payload_bytes(cpu_id, seq, event);
    assert(s.subrange(0, 4) =~= bytes::le_bytes(cpu_id as nat, 4));
    assert(s.subrange(4, 12) =~= bytes::le_bytes(seq as nat, 8));
    match event {
        EventView::ContextSwitch { prev, prev_state, next } => {
            let mid = 12 + task_bytes(prev).len() as int;
            lemma_task_layout(prev);
            lemma_task_layout(next);
            assert(s.subrange(12, mid) =~= task_bytes(prev));
            assert(s.subrange(mid, mid + 4) =~= bytes::le_bytes(prev_state.code() as nat, 4));
            assert(s.subrange(mid + 4, s.len() as int) =~= task_bytes(next));
            lemma_task_stands(s, 12, prev);
            lemma_task_stands(s, mid + 4, next);
        },
        EventView::TraceMarkBegin { task, name } => {
            let mid = 12 + task_bytes(task).len() as int;
            let text = utf8::encode_utf8(name);
            lemma_task_layout(task);
            assert(s.subrange(12, mid) =~= task_bytes(task));
            lemma_task_stands(s, 12, task);
            assert(s.subrange(mid, mid + 2) =~= bytes::le_bytes(text.len(), 2));
            let len = text.len() as u16;
            assert(bytes::le_value(bytes::le_bytes(len as nat, 2)) == len);
            assert(s.subrange(mid + 2, s.len() as int) =~= text);
        },
        EventView::TraceMarkEnd { task } => {
            let mid = 12 + task_bytes(task).len() as int;
            lemma_task_layout(task);
            assert(s.subrange(12, mid) =~= task_bytes(task));
            lemma_task_stands(s, 12, task);
        },
    }
}

/// An event is read as it was written.
///
/// The one exception is an unknown state that carries the number of a state that
/// the library knows, which reads as that state.
pub proof fn law_read_as_written(event: EventView)
    ensures
        (event matches EventView::ContextSwitch { prev_state: OffCpuState::Unknown(value), .. }
            ==> value > 10) ==> event.as_read() == event,
        match (event, event.as_read()) {
            (
                EventView::ContextSwitch { prev, prev_state, next },
                EventView::ContextSwitch { prev: prev_read, prev_state: state_read, next: next_read },
            ) => {
                &&& prev_read == prev
                &&& next_read == next
                &&& state_read.code() == prev_state.code()
            },
            (EventView::ContextSwitch { .. }, _) => false,
            (_, read) => read == event,
        },
{
}

} // verus!
