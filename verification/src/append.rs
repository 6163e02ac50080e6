//! Appending events to the ring of one CPU.

use vstd::prelude::*;
use vstd::utf8;

use crate::bytes;
use crate::payload;
use crate::payload::{
    DecodedView, EventView, PayloadWriter, RecordView, TraceEvent, PAYLOAD_CAPACITY,
};
use crate::ring;
use crate::ring::{
    append_encoded_record, plan_record, AppendStatus, BufferMode, CpuRing, CpuState, DropReason,
    Placement,
};

verus! {

/// A CPU after an event with sequence number `seq` was put into its ring, or
/// the reason why it was not: the payload must fit into the payload space, and
/// the record into the ring.
pub open spec fn event_put(
    cpu: CpuRing,
    mode: BufferMode,
    cpu_id: u32,
    seq: u64,
    timestamp: u64,
    event: EventView,
) -> Result<CpuRing, DropReason> {
    let content = payload::payload_bytes(cpu_id, seq, event);
    if content.len() > PAYLOAD_CAPACITY {
        Err(DropReason::RecordTooLarge)
    } else {
        ring::ring_put(cpu, mode, event.kind(), event.event_id(), timestamp, content)
    }
}

/// A CPU after an append attempt, and the status that the attempt reports.
///
/// A CPU that is in the middle of an append drops the event and counts it as
/// reentrant. Otherwise the event takes the next sequence number, whether or
/// not the ring takes the record; a record that the ring does not take is
/// counted as dropped.
pub open spec fn append_outcome(
    cpu: CpuRing,
    mode: BufferMode,
    cpu_id: u32,
    timestamp: u64,
    event: EventView,
) -> (CpuRing, AppendStatus) {
    let state = cpu.state;
    if state.writer_active {
        (
            CpuRing {
                state: CpuState {
                    dropped: ring::bumped(state.dropped),
                    reentrant_dropped: ring::bumped(state.reentrant_dropped),
                    ..state
                },
                ring: cpu.ring,
            },
            AppendStatus::Dropped(DropReason::Reentrant),
        )
    } else {
        let seq = state.per_cpu_seq;
        let numbered = CpuState { per_cpu_seq: ring::bumped(seq), ..state };
        match event_put(
            CpuRing { state: numbered, ring: cpu.ring },
            mode,
            cpu_id,
            seq,
            timestamp,
            event,
        ) {
            Ok(after) => (after, AppendStatus::Written),
            Err(reason) => (
                CpuRing {
                    state: CpuState { dropped: ring::bumped(state.dropped), ..numbered },
                    ring: cpu.ring,
                },
                AppendStatus::Dropped(reason),
            ),
        }
    }
}

/// Whether a CPU is appending has no bearing on how room is made.
proof fn lemma_room_ignores_writer(state: CpuState, buffer: Seq<u8>, needed: int, active: bool)
    ensures
        ring::with_room(CpuState { writer_active: active, ..state }, buffer, needed) == (CpuState {
            writer_active: active,
            ..ring::with_room(state, buffer, needed)
        }),
    decreases state.used,
{
    let next = ring::without_oldest(state, buffer);
    let flagged = CpuState { writer_active: active, ..state };
    assert(ring::without_oldest(flagged, buffer) == (CpuState { writer_active: active, ..next }));
    if buffer.len() - state.used < needed && next.used < state.used {
        lemma_room_ignores_writer(next, buffer, needed, active);
    }
}

/// Whether a CPU is appending has no bearing on where an event is put.
pub(crate) proof fn lemma_put_ignores_writer(
    cpu: CpuRing,
    mode: BufferMode,
    cpu_id: u32,
    seq: u64,
    timestamp: u64,
    event: EventView,
    active: bool,
)
    ensures
        event_put(
            CpuRing { state: CpuState { writer_active: active, ..cpu.state }, ring: cpu.ring },
            mode,
            cpu_id,
            seq,
            timestamp,
            event,
        ) == (match event_put(cpu, mode, cpu_id, seq, timestamp, event) {
            Ok(after) => Ok(
                CpuRing {
                    state: CpuState { writer_active: active, ..after.state },
                    ring: after.ring,
                },
            ),
            Err(reason) => Err(reason),
        }),
{
    let total = ring::record_len(payload::payload_bytes(cpu_id, seq, event).len());
    let needed = ring::room_needed(cpu.state.write_pos as int, cpu.cap(), total);
    lemma_room_ignores_writer(cpu.state, cpu.ring, needed, active);
}

/// Putting an event into a ring leaves the writer flag alone.
pub(crate) proof fn lemma_put_writer(
    cpu: CpuRing,
    mode: BufferMode,
    cpu_id: u32,
    seq: u64,
    timestamp: u64,
    event: EventView,
)
    ensures
        event_put(cpu, mode, cpu_id, seq, timestamp, event) matches Ok(after) ==> {
            &&& after.state.writer_active == cpu.state.writer_active
        },
{
    lemma_put_ignores_writer(cpu, mode, cpu_id, seq, timestamp, event, cpu.state.writer_active);
    assert(CpuRing {
        state: CpuState { writer_active: cpu.state.writer_active, ..cpu.state },
        ring: cpu.ring,
    } == cpu);
}

/// Encodes an event into an empty payload, makes room for it in a ring and moves
/// the cursors behind it, or says why it cannot. The CPU must be marked as
/// appending.
pub fn plan_event(
    state: &mut CpuState,
    buffer: &[u8],
    mode: BufferMode,
    cpu_id: u32,
    seq: u64,
    event: TraceEvent<'_>,
    writer: &mut PayloadWriter<'_>,
) -> (result: Result<Placement, DropReason>)
    requires
        old(state).writer_active,
        (CpuRing { state: *old(state), ring: buffer@ }).cursors_ok(),
        old(writer).wf(),
        old(writer).bytes@.len() == PAYLOAD_CAPACITY,
        old(writer).contents() == Seq::<u8>::empty(),
    ensures
        ({
            let cpu = CpuRing { state: *old(state), ring: buffer@ };
            let content = payload::payload_bytes(cpu_id, seq, event@);
            let total = ring::record_len(content.len());
            if content.len() > PAYLOAD_CAPACITY {
                &&& result == Err::<Placement, DropReason>(DropReason::RecordTooLarge)
                &&& *final(state) == *old(state)
            } else {
                &&& final(writer).wf()
                &&& final(writer).contents() == content
                &&& match ring::put_error(cpu, mode, content.len()) {
                    None => {
                        &&& result == Ok::<Placement, DropReason>(Placement::of(cpu, total))
                        &&& *final(state) == ring::put_state(cpu, total)
                    },
                    Some(reason) => {
                        &&& result == Err::<Placement, DropReason>(reason)
                        &&& *final(state) == *old(state)
                    },
                }
            }
        }),
        final(final(writer).bytes)@ == final(old(writer).bytes)@,
{
    event.encode(writer, cpu_id, seq)?;
    assert(writer.contents() =~= payload::payload_bytes(cpu_id, seq, event@));
    plan_record(state, buffer, mode, writer.written().len())
}

/// Encodes an event and puts it into a ring. The CPU must be marked as appending.
pub fn put_event(
    state: &mut CpuState,
    buffer: &mut [u8],
    mode: BufferMode,
    cpu_id: u32,
    seq: u64,
    timestamp: u64,
    event: TraceEvent<'_>,
) -> (result: Result<(), DropReason>)
    requires
        old(state).writer_active,
        (CpuRing { state: *old(state), ring: old(buffer)@ }).cursors_ok(),
    ensures
        match event_put(
            CpuRing { state: *old(state), ring: old(buffer)@ },
            mode,
            cpu_id,
            seq,
            timestamp,
            event@,
        ) {
            Ok(after) => {
                &&& result == Ok::<(), DropReason>(())
                &&& *final(state) == after.state
                &&& final(buffer)@ == after.ring
            },
            Err(reason) => {
                &&& result == Err::<(), DropReason>(reason)
                &&& *final(state) == *old(state)
                &&& final(buffer)@ == old(buffer)@
            },
        },
{
    let mut scratch: [u8; 512] = [0u8; 512];
    let mut writer = PayloadWriter::new(&mut scratch);
    event.encode(&mut writer, cpu_id, seq)?;
    assert(writer.contents() =~= payload::payload_bytes(cpu_id, seq, event@));
    append_encoded_record(
        state,
        buffer,
        mode,
        event.kind(),
        event.event_id(),
        timestamp,
        writer.written(),
    )
}

/// Appends an event on a CPU.
pub fn append_event(
    state: &mut CpuState,
    buffer: &mut [u8],
    mode: BufferMode,
    cpu_id: u32,
    timestamp: u64,
    event: TraceEvent<'_>,
) -> (status: AppendStatus)
    requires
        (CpuRing { state: *old(state), ring: old(buffer)@ }).cursors_ok(),
    ensures
        (CpuRing { state: *final(state), ring: final(buffer)@ }, status) == append_outcome(
            CpuRing { state: *old(state), ring: old(buffer)@ },
            mode,
            cpu_id,
            timestamp,
            event@,
        ),
{
    if state.writer_active {
        state.dropped = state.dropped.saturating_add(1);
        state.reentrant_dropped = state.reentrant_dropped.saturating_add(1);
        return AppendStatus::Dropped(DropReason::Reentrant);
    }
    let ghost numbered = CpuRing {
        state: CpuState { per_cpu_seq: ring::bumped(state.per_cpu_seq), ..*state },
        ring: buffer@,
    };
    state.writer_active = true;
    let seq: u64 = state.per_cpu_seq;
    state.per_cpu_seq = state.per_cpu_seq.saturating_add(1);
    proof {
        lemma_put_ignores_writer(numbered, mode, cpu_id, seq, timestamp, event@, true);
        lemma_put_writer(numbered, mode, cpu_id, seq, timestamp, event@);
    }
    let result = put_event(state, buffer, mode, cpu_id, seq, timestamp, event);
    state.writer_active = false;
    match result {
        Ok(()) => AppendStatus::Written,
        Err(reason) => {
            state.dropped = state.dropped.saturating_add(1);
            AppendStatus::Dropped(reason)
        },
    }
}

/// The record that an event becomes.
pub open spec fn event_record(cpu_id: u32, seq: u64, timestamp: u64, event: EventView) -> RecordView {
    ring::record_view(
        event.kind(),
        event.event_id(),
        timestamp,
        payload::payload_bytes(cpu_id, seq, event),
    )
}

/// The length of the record that an event becomes.
pub open spec fn event_len(cpu: CpuRing, cpu_id: u32, event: EventView) -> int {
    ring::record_len(payload::payload_bytes(cpu_id, cpu.state.per_cpu_seq, event).len())
}

/// The number of bytes that must be free for an event: the length of its record,
/// and the padding in front of it if it wraps, but no more than the ring has.
pub open spec fn space_needed(cpu: CpuRing, cpu_id: u32, event: EventView) -> int {
    ring::room_needed(cpu.state.write_pos as int, cpu.cap(), event_len(cpu, cpu_id, event))
}

/// When an event is written, and what each refusal means.
///
/// An event is written if the CPU is not already appending, the payload fits
/// into the payload space, the record is no larger than the ring, and there is room
/// for it or the mode lets old records make room. Each of these decides alone, in
/// this order.
pub proof fn law_append_status(
    cpu: CpuRing,
    mode: BufferMode,
    cpu_id: u32,
    timestamp: u64,
    event: EventView,
)
    requires
        cpu.wf(),
    ensures
        ({
            let status = append_outcome(cpu, mode, cpu_id, timestamp, event).1;
            let content = payload::payload_bytes(cpu_id, cpu.state.per_cpu_seq, event);
            let total = event_len(cpu, cpu_id, event);
            let padding = ring::padding_len(cpu.state.write_pos as int, cpu.cap(), total);
            status == (if cpu.state.writer_active {
                AppendStatus::Dropped(DropReason::Reentrant)
            } else if content.len() > PAYLOAD_CAPACITY || total > cpu.cap() {
                AppendStatus::Dropped(DropReason::RecordTooLarge)
            } else if cpu.cap() - cpu.state.used < padding + total && mode
                == BufferMode::StopOnFull {
                AppendStatus::Dropped(DropReason::BufferFull)
            } else {
                AppendStatus::Written
            })
        }),
{
    let content = payload::payload_bytes(cpu_id, cpu.state.per_cpu_seq, event);
    ring::lemma_record_len(content.len());
}

/// An append keeps the ring well-formed, whatever its status.
pub proof fn law_append_keeps_wf(
    cpu: CpuRing,
    mode: BufferMode,
    cpu_id: u32,
    timestamp: u64,
    event: EventView,
)
    requires
        cpu.wf(),
    ensures
        append_outcome(cpu, mode, cpu_id, timestamp, event).0.wf(),
        append_outcome(cpu, mode, cpu_id, timestamp, event).0.cap() == cpu.cap(),
        append_outcome(cpu, mode, cpu_id, timestamp, event).0.state.writer_active
            == cpu.state.writer_active,
{
    let numbered = CpuRing {
        state: CpuState { per_cpu_seq: ring::bumped(cpu.state.per_cpu_seq), ..cpu.state },
        ring: cpu.ring,
    };
    assert(numbered.wf());
    ring::law_put_entries(
        numbered,
        mode,
        event.kind(),
        event.event_id(),
        timestamp,
        payload::payload_bytes(cpu_id, cpu.state.per_cpu_seq, event),
    );
}

/// The sequence number has no bearing on how room is made.
proof fn lemma_room_ignores_seq(state: CpuState, buffer: Seq<u8>, needed: int, seq: u64)
    ensures
        ring::evictions(CpuState { per_cpu_seq: seq, ..state }, buffer, needed) == ring::evictions(
            state,
            buffer,
            needed,
        ),
    decreases state.used,
{
    let next = ring::without_oldest(state, buffer);
    let numbered = CpuState { per_cpu_seq: seq, ..state };
    assert(ring::without_oldest(numbered, buffer) == (CpuState { per_cpu_seq: seq, ..next }));
    if buffer.len() - state.used < needed && next.used < state.used {
        lemma_room_ignores_seq(next, buffer, needed, seq);
    }
}

/// A written event is read back.
///
/// After an event was written, a reader finds the records it found before,
/// without the oldest ones that had to make room, and then one more record. That
/// record decodes to the timestamp, the CPU id, the next sequence number and the
/// event. No record is lost if the free bytes were enough, or in
/// [`BufferMode::StopOnFull`]. The drop counter counts what made room.
pub proof fn law_read_after_append(
    cpu: CpuRing,
    mode: BufferMode,
    cpu_id: u32,
    timestamp: u64,
    event: EventView,
)
    requires
        cpu.wf(),
        append_outcome(cpu, mode, cpu_id, timestamp, event).1 == AppendStatus::Written,
    ensures
        ({
            let after = append_outcome(cpu, mode, cpu_id, timestamp, event).0;
            let seq = cpu.state.per_cpu_seq;
            let needed = space_needed(cpu, cpu_id, event);
            let lost = ring::lost_records(cpu, needed);
            let record = event_record(cpu_id, seq, timestamp, event);
            &&& 0 <= lost <= cpu.records().len()
            &&& after.records() == cpu.records().skip(lost).push(record)
            &&& record.decoded() == Some(
                DecodedView { timestamp, cpu_id, seq, event: event.as_read() },
            )
            &&& cpu.cap() - cpu.state.used >= needed ==> lost == 0
            &&& mode == BufferMode::StopOnFull ==> lost == 0
            &&& after.state.dropped == ring::dropped_after(
                cpu.state.dropped,
                ring::evicted(cpu, needed),
            )
            &&& after.state.per_cpu_seq == ring::bumped(seq)
        }),
{
    let seq = cpu.state.per_cpu_seq;
    let content = payload::payload_bytes(cpu_id, seq, event);
    let needed = space_needed(cpu, cpu_id, event);
    let numbered = CpuRing {
        state: CpuState { per_cpu_seq: ring::bumped(seq), ..cpu.state },
        ring: cpu.ring,
    };
    assert(numbered.wf());
    lemma_room_ignores_seq(cpu.state, cpu.ring, needed, ring::bumped(seq));
    ring::law_read_after_put(numbered, mode, event.kind(), event.event_id(), timestamp, content);
    ring::law_put_entries(numbered, mode, event.kind(), event.event_id(), timestamp, content);
    let total = ring::record_len(content.len());
    let record = event_record(cpu_id, seq, timestamp, event);
    payload::law_decode_encoded(
        record.header,
        cpu_id,
        seq,
        event,
        bytes::zeros((total - crate::record::RECORD_HEADER_SIZE - content.len()) as nat),
    );
}

/// A refused event leaves the ring alone.
///
/// When an event is dropped, the ring bytes, the cursors and so the readable
/// records stay as they were, and the drop counter goes up by one. The
/// reentrant drop counter goes up by one just for a reentrant append, which
/// takes no sequence number.
pub proof fn law_dropped_append(
    cpu: CpuRing,
    mode: BufferMode,
    cpu_id: u32,
    timestamp: u64,
    event: EventView,
)
    requires
        append_outcome(cpu, mode, cpu_id, timestamp, event).1 != AppendStatus::Written,
    ensures
        ({
            let (after, status) = append_outcome(cpu, mode, cpu_id, timestamp, event);
            let reentrant = status == AppendStatus::Dropped(DropReason::Reentrant);
            &&& after.ring == cpu.ring
            &&& after.records() == cpu.records()
            &&& after.state == (CpuState {
                dropped: ring::bumped(cpu.state.dropped),
                reentrant_dropped: if reentrant {
                    ring::bumped(cpu.state.reentrant_dropped)
                } else {
                    cpu.state.reentrant_dropped
                },
                per_cpu_seq: if reentrant {
                    cpu.state.per_cpu_seq
                } else {
                    ring::bumped(cpu.state.per_cpu_seq)
                },
                ..cpu.state
            })
            &&& reentrant <==> cpu.state.writer_active
        }),
{
}

/// The sequence number of a record that decodes.
pub open spec fn record_seq(record: RecordView) -> u64 {
    record.decoded()->0.seq
}

/// Every readable record decodes; their sequence numbers strictly increase, and
/// are all below the next one.
pub open spec fn in_order(cpu: CpuRing) -> bool {
    let records = cpu.records();
    &&& forall|i: int|
        0 <= i < records.len() ==> {
            &&& (#[trigger] records[i]).decoded() is Some
            &&& record_seq(records[i]) < cpu.state.per_cpu_seq
        }
    &&& forall|i: int, j: int|
        0 <= i < j < records.len() ==> record_seq(#[trigger] records[i]) < record_seq(
            #[trigger] records[j],
        )
}

/// The records of an empty ring are in order.
pub proof fn law_fresh_in_order(ring: Seq<u8>)
    requires
        ring::MIN_RING_BUFFER_SIZE <= ring.len() <= usize::MAX,
    ensures
        in_order(CpuRing { state: CpuState::fresh(), ring }),
{
    ring::law_fresh(ring);
}

/// Appends keep the records of a ring in order, as long as the sequence number
/// has not reached its greatest value.
pub proof fn law_append_keeps_order(
    cpu: CpuRing,
    mode: BufferMode,
    cpu_id: u32,
    timestamp: u64,
    event: EventView,
)
    requires
        cpu.wf(),
        in_order(cpu),
        cpu.state.per_cpu_seq < u64::MAX,
    ensures
        in_order(append_outcome(cpu, mode, cpu_id, timestamp, event).0),
{
    let (after, status) = append_outcome(cpu, mode, cpu_id, timestamp, event);
    if status == AppendStatus::Written {
        law_read_after_append(cpu, mode, cpu_id, timestamp, event);
        let lost = ring::lost_records(cpu, space_needed(cpu, cpu_id, event));
        let records = after.records();
        let kept = cpu.records().skip(lost);
        let last = records.len() - 1;
        assert forall|i: int| 0 <= i < records.len() implies {
            &&& (#[trigger] records[i]).decoded() is Some
            &&& record_seq(records[i]) < after.state.per_cpu_seq
        } by {
            if i < last {
                assert(records[i] == cpu.records()[i + lost]);
            }
        }
        assert forall|i: int, j: int| 0 <= i < j < records.len() implies record_seq(
            #[trigger] records[i],
        ) < record_seq(#[trigger] records[j]) by {
            assert(records[i] == cpu.records()[i + lost]);
            if j < last {
                assert(records[j] == cpu.records()[j + lost]);
            }
        }
    } else {
        law_dropped_append(cpu, mode, cpu_id, timestamp, event);
    }
}

/// The size of the payload of an event: its fixed fields, and the UTF-8 bytes of
/// its strings.
pub open spec fn payload_size(event: EventView) -> nat {
    match event {
        EventView::ContextSwitch { prev, prev_state, next } => 44 + utf8::encode_utf8(
            prev.comm,
        ).len() + utf8::encode_utf8(next.comm).len(),
        EventView::TraceMarkBegin { task, name } => 28 + utf8::encode_utf8(task.comm).len()
            + utf8::encode_utf8(name).len(),
        EventView::TraceMarkEnd { task } => 26 + utf8::encode_utf8(task.comm).len(),
    }
}

/// The size of records: a header of sixteen bytes and the payload, rounded up to
/// a multiple of eight.
pub proof fn law_record_size(cpu_id: u32, seq: u64, event: EventView)
    ensures
        ring::record_len(payload::payload_bytes(cpu_id, seq, event).len()) == bytes::aligned(
            16int + payload_size(event),
            8,
        ),
{
    broadcast use bytes::lemma_le_bytes_len;

    assert(payload::payload_bytes(cpu_id, seq, event).len() == payload_size(event));
}

/// An event is put into a ring as the ring decides.
proof fn lemma_outcome_is_put(
    cpu: CpuRing,
    mode: BufferMode,
    cpu_id: u32,
    timestamp: u64,
    event: EventView,
)
    requires
        cpu.wf(),
        !cpu.state.writer_active,
        payload_size(event) <= 512,
    ensures
        ({
            let seq = cpu.state.per_cpu_seq;
            let numbered = CpuRing {
                state: CpuState { per_cpu_seq: ring::bumped(seq), ..cpu.state },
                ring: cpu.ring,
            };
            let content = payload::payload_bytes(cpu_id, seq, event);
            let (after, status) = append_outcome(cpu, mode, cpu_id, timestamp, event);
            &&& numbered.wf()
            &&& content.len() == payload_size(event)
            &&& match ring::ring_put(
                numbered,
                mode,
                event.kind(),
                event.event_id(),
                timestamp,
                content,
            ) {
                Ok(put) => after == put && status == AppendStatus::Written,
                Err(reason) => status == AppendStatus::Dropped(reason),
            }
        }),
{
    broadcast use bytes::lemma_le_bytes_len;

}

/// What an append attempt returns.
///
/// An event is dropped as reentrant while the CPU is appending, as too large if its
/// payload exceeds 512 bytes or its record the ring, and for want of room if its
/// record does not fit into the free bytes and old records may not make room. In all
/// other cases it is written.
pub proof fn law_append_decides(
    cpu: CpuRing,
    mode: BufferMode,
    cpu_id: u32,
    timestamp: u64,
    event: EventView,
    total: int,
)
    requires
        cpu.wf(),
        ring::is_record_len(total, payload_size(event)),
    ensures
        append_outcome(cpu, mode, cpu_id, timestamp, event).1 == (if cpu.state.writer_active {
            AppendStatus::Dropped(DropReason::Reentrant)
        } else if payload_size(event) > 512 || total > cpu.ring.len() {
            AppendStatus::Dropped(DropReason::RecordTooLarge)
        } else if mode == BufferMode::Overwrite || ring::fits_free(cpu, total) {
            AppendStatus::Written
        } else {
            AppendStatus::Dropped(DropReason::BufferFull)
        }),
{
    broadcast use bytes::lemma_le_bytes_len;

    let seq = cpu.state.per_cpu_seq;
    let content = payload::payload_bytes(cpu_id, seq, event);
    assert(content.len() == payload_size(event));
    if !cpu.state.writer_active && payload_size(event) <= 512 {
        let numbered = CpuRing {
            state: CpuState { per_cpu_seq: ring::bumped(seq), ..cpu.state },
            ring: cpu.ring,
        };
        lemma_outcome_is_put(cpu, mode, cpu_id, timestamp, event);
        ring::law_put_decides(
            numbered,
            mode,
            event.kind(),
            event.event_id(),
            timestamp,
            content,
            total,
        );
    }
}

/// An event for which there are enough free bytes is written, and nothing is lost.
///
/// In either mode, a reader finds what it found before and then the event, with the
/// timestamp, the CPU id and the next sequence number. In front of the end of the
/// ring, the used bytes grow by the length of the record alone. The sequence number
/// goes up by one, and no counter of drops changes.
pub proof fn law_append_fits(
    cpu: CpuRing,
    mode: BufferMode,
    cpu_id: u32,
    timestamp: u64,
    event: EventView,
    total: int,
)
    requires
        cpu.wf(),
        !cpu.state.writer_active,
        ring::is_record_len(total, payload_size(event)),
        payload_size(event) <= 512,
        total <= cpu.ring.len(),
        ring::fits_free(cpu, total),
    ensures
        ({
            let (after, status) = append_outcome(cpu, mode, cpu_id, timestamp, event);
            let cap = cpu.ring.len() as int;
            let end = cpu.state.write_pos + total;
            let seq = cpu.state.per_cpu_seq;
            &&& status == AppendStatus::Written
            &&& after.wf()
            &&& after.ring.len() == cap
            &&& after.records().len() == cpu.records().len() + 1
            &&& after.records().drop_last() == cpu.records()
            &&& after.records().last().decoded() == Some(
                DecodedView { timestamp, cpu_id, seq, event: event.as_read() },
            )
            &&& after.state.per_cpu_seq == (if seq == u64::MAX {
                u64::MAX as int
            } else {
                seq + 1
            })
            &&& after.state.dropped == cpu.state.dropped
            &&& after.state.reentrant_dropped == cpu.state.reentrant_dropped
            &&& !after.state.writer_active
            &&& after.state.read_pos == cpu.state.read_pos
            &&& if end <= cap {
                &&& after.state.used == cpu.state.used + total
                &&& after.state.write_pos == (if end == cap {
                    0
                } else {
                    end
                })
            } else {
                &&& after.state.used == cpu.state.used + (cap - cpu.state.write_pos) + total
                &&& after.state.write_pos == total
            }
        }),
{
    let seq = cpu.state.per_cpu_seq;
    let numbered = CpuRing {
        state: CpuState { per_cpu_seq: ring::bumped(seq), ..cpu.state },
        ring: cpu.ring,
    };
    let content = payload::payload_bytes(cpu_id, seq, event);
    lemma_outcome_is_put(cpu, mode, cpu_id, timestamp, event);
    ring::law_put_fits(
        numbered,
        mode,
        event.kind(),
        event.event_id(),
        timestamp,
        content,
        total,
    );
    law_read_after_append(cpu, mode, cpu_id, timestamp, event);
    let lost = ring::lost_records(cpu, space_needed(cpu, cpu_id, event));
    let record = event_record(cpu_id, seq, timestamp, event);
    let after = append_outcome(cpu, mode, cpu_id, timestamp, event).0;
    assert(after.records().last() == record);
}

/// In [`BufferMode::Overwrite`] an event is written unless it is too large, and the
/// oldest records make room for it, no more than needed.
///
/// A reader finds what is left of the records and then the event, with the
/// timestamp, the CPU id and the next sequence number. The number of ring entries
/// that made room is returned.
pub proof fn law_append_overwrites(
    cpu: CpuRing,
    cpu_id: u32,
    timestamp: u64,
    event: EventView,
    total: int,
) -> (gone: int)
    requires
        cpu.wf(),
        !cpu.state.writer_active,
        ring::is_record_len(total, payload_size(event)),
        payload_size(event) <= 512,
        total <= cpu.ring.len(),
    ensures
        ({
            let mode = BufferMode::Overwrite;
            let (after, status) = append_outcome(cpu, mode, cpu_id, timestamp, event);
            let cap = cpu.ring.len() as int;
            let at = cpu.state.write_pos as int;
            let given_up = if at + total <= cap {
                0
            } else {
                cap - at
            };
            let kept = cpu.entries().skip(gone);
            &&& status == AppendStatus::Written
            &&& after.wf()
            &&& 0 <= gone <= cpu.entries().len()
            &&& after.records().len() > 0
            &&& after.records().drop_last() == ring::records_of(kept)
            &&& after.records().last().decoded() == Some(
                DecodedView {
                    timestamp,
                    cpu_id,
                    seq: cpu.state.per_cpu_seq,
                    event: event.as_read(),
                },
            )
            &&& after.state.dropped >= cpu.state.dropped
            &&& after.state.dropped < u64::MAX ==> after.state.dropped == cpu.state.dropped
                + ring::records_of(cpu.entries().take(gone)).len() + ring::paddings_of(
                cpu.entries().take(gone),
            )
            &&& if given_up + total <= cap {
                &&& ring::total_len(kept) + given_up + total <= cap
                &&& gone > 0 ==> ring::total_len(cpu.entries().skip(gone - 1)) + given_up + total
                    > cap
                &&& after.state.used == ring::total_len(kept) + given_up + total
            } else {
                &&& gone == cpu.entries().len()
                &&& after.state.used == total
            }
        }),
{
    let seq = cpu.state.per_cpu_seq;
    let mode = BufferMode::Overwrite;
    let numbered = CpuRing {
        state: CpuState { per_cpu_seq: ring::bumped(seq), ..cpu.state },
        ring: cpu.ring,
    };
    let content = payload::payload_bytes(cpu_id, seq, event);
    lemma_outcome_is_put(cpu, mode, cpu_id, timestamp, event);
    let gone = ring::law_put_overwrites(
        numbered,
        event.kind(),
        event.event_id(),
        timestamp,
        content,
        total,
    );
    law_read_after_append(cpu, mode, cpu_id, timestamp, event);
    let after = append_outcome(cpu, mode, cpu_id, timestamp, event).0;
    assert(after.records().last() == event_record(cpu_id, seq, timestamp, event));
    gone
}

/// An event that is not written changes counters alone.
///
/// The drop counter goes up by one, until it has reached its greatest value. A
/// reentrant attempt counts as such too, and takes no sequence number; any other
/// takes one.
pub proof fn law_append_counts(
    cpu: CpuRing,
    mode: BufferMode,
    cpu_id: u32,
    timestamp: u64,
    event: EventView,
)
    requires
        append_outcome(cpu, mode, cpu_id, timestamp, event).1 != AppendStatus::Written,
    ensures
        ({
            let after = append_outcome(cpu, mode, cpu_id, timestamp, event).0;
            let more = |count: u64|
                if count == u64::MAX {
                    count
                } else {
                    (count + 1) as u64
                };
            &&& after.ring == cpu.ring
            &&& after.state == (if cpu.state.writer_active {
                CpuState {
                    dropped: more(cpu.state.dropped),
                    reentrant_dropped: more(cpu.state.reentrant_dropped),
                    ..cpu.state
                }
            } else {
                CpuState {
                    dropped: more(cpu.state.dropped),
                    per_cpu_seq: more(cpu.state.per_cpu_seq),
                    ..cpu.state
                }
            })
        }),
{
}

} // verus!
