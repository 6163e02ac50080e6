//! Binary formats: integers, record headers, payloads, and reading records.

use ostrace::bytes::{
    align_up, copy_at, fill_zero, read_u16_at, read_u32_at, read_u64_at, write_u16_at,
    write_u32_at, write_u64_at,
};
use ostrace::payload::{PayloadReader, PayloadWriter, TraceEvent};
use ostrace::record::{decode_header, encode_header};
use ostrace::{
    DecodedRecord, DropReason, OffCpuState, OwnedTaskRef, RawRecord, RecordHeader, RecordIter,
    RecordKind, TaskRef,
};

fn task(comm: &str) -> TaskRef<'_> {
    TaskRef {
        comm,
        tid: 3,
        tgid: 2,
        prio: -1,
    }
}

fn raw(event_id: u32, payload: &[u8]) -> RawRecord<'_> {
    RawRecord {
        header: RecordHeader {
            len: 0,
            kind: RecordKind::DurationEnd,
            flags: 0,
            event_id,
            timestamp: 77,
        },
        payload,
    }
}

#[test]
fn integers_are_little_endian() {
    let mut bytes = [0u8; 16];
    write_u16_at(&mut bytes, 0, 0x0201);
    write_u32_at(&mut bytes, 2, 0x0605_0403);
    write_u64_at(&mut bytes, 6, 0x0e0d_0c0b_0a09_0807);
    assert_eq!(bytes, [1, 2, 3, 4, 5, 6, 7, 8, 9, 10, 11, 12, 13, 14, 0, 0]);
    assert_eq!(read_u16_at(&bytes, 0), 0x0201);
    assert_eq!(read_u32_at(&bytes, 2), 0x0605_0403);
    assert_eq!(read_u64_at(&bytes, 6), 0x0e0d_0c0b_0a09_0807);
    write_u64_at(&mut bytes, 8, u64::MAX);
    assert_eq!(read_u64_at(&bytes, 8), u64::MAX);
}

#[test]
fn bytes_are_copied_and_cleared_in_place() {
    let mut bytes = [9u8; 6];
    copy_at(&mut bytes, 1, &[1, 2, 3]);
    assert_eq!(bytes, [9, 1, 2, 3, 9, 9]);
    fill_zero(&mut bytes, 2, 5);
    assert_eq!(bytes, [9, 1, 0, 0, 0, 9]);
    fill_zero(&mut bytes, 3, 3);
    assert_eq!(bytes, [9, 1, 0, 0, 0, 9]);
}

#[test]
fn lengths_are_aligned_upwards() {
    assert_eq!(align_up(0, 8), 0);
    assert_eq!(align_up(1, 8), 8);
    assert_eq!(align_up(8, 8), 8);
    assert_eq!(align_up(65, 8), 72);
}

#[test]
fn record_header_round_trips() {
    let mut bytes = [0xffu8; 18];
    encode_header(&mut bytes, 1, 0x0148, RecordKind::ContextSwitch, 1, 0x0102);
    assert_eq!(
        bytes,
        [0xff, 0x48, 0x01, 6, 0, 1, 0, 0, 0, 2, 1, 0, 0, 0, 0, 0, 0, 0xff]
    );
    assert_eq!(
        decode_header(&bytes[1..17]),
        Some(RecordHeader {
            len: 0x0148,
            kind: RecordKind::ContextSwitch,
            flags: 0,
            event_id: 1,
            timestamp: 0x0102,
        })
    );
}

#[test]
fn every_record_kind_is_read_back() {
    let kinds = [
        (RecordKind::Instant, 1),
        (RecordKind::DurationBegin, 2),
        (RecordKind::DurationEnd, 3),
        (RecordKind::Counter, 4),
        (RecordKind::Metadata, 5),
        (RecordKind::ContextSwitch, 6),
        (RecordKind::Padding, 255),
    ];
    for (kind, code) in kinds {
        assert_eq!(kind.code(), code);
        let mut bytes = [0u8; 16];
        bytes[2] = code;
        bytes[3] = 9;
        let header = decode_header(&bytes).unwrap();
        assert_eq!(header.kind, kind);
        assert_eq!(header.flags, 9);
    }
}

#[test]
fn bad_record_headers_are_refused() {
    let mut bytes = [0u8; 16];
    assert_eq!(decode_header(&bytes), None);
    bytes[2] = 7;
    assert_eq!(decode_header(&bytes), None);
    bytes[2] = 1;
    assert_eq!(decode_header(&bytes[..15]), None);
    assert!(decode_header(&bytes).is_some());
}

#[test]
fn off_cpu_states_round_trip() {
    let states = [
        (OffCpuState::Running, 0, "R"),
        (OffCpuState::Sleeping, 1, "S"),
        (OffCpuState::DiskSleep, 2, "D"),
        (OffCpuState::Stopped, 3, "T"),
        (OffCpuState::TracingStop, 4, "t"),
        (OffCpuState::Zombie, 5, "Z"),
        (OffCpuState::Dead, 6, "X"),
        (OffCpuState::WakeKill, 7, "K"),
        (OffCpuState::Waking, 8, "W"),
        (OffCpuState::Parked, 9, "P"),
        (OffCpuState::Idle, 10, "I"),
    ];
    for (state, code, letter) in states {
        assert_eq!(state.encode(), code);
        assert_eq!(OffCpuState::decode(code), state);
        assert_eq!(state.bytrace(), letter);
    }
    assert_eq!(OffCpuState::Unknown(77).encode(), 77);
    assert_eq!(OffCpuState::decode(77), OffCpuState::Unknown(77));
    assert_eq!(OffCpuState::decode(OffCpuState::Unknown(3).encode()), OffCpuState::Stopped);
}

#[test]
fn trace_mark_end_payload_is_stable() {
    let mut space = [0u8; 64];
    let mut writer = PayloadWriter::new(&mut space);
    let event = TraceEvent::TraceMarkEnd { task: task("ab") };
    assert_eq!(event.kind(), RecordKind::DurationEnd);
    assert_eq!(event.event_id(), 3);
    assert_eq!(event.encode(&mut writer, 5, 0x0102), Ok(()));
    assert_eq!(
        writer.written(),
        [
            5, 0, 0, 0, 2, 1, 0, 0, 0, 0, 0, 0, 3, 0, 0, 0, 2, 0, 0, 0, 0xff, 0xff, 0xff, 0xff, 2,
            0, b'a', b'b'
        ]
    );
}

#[test]
fn encoded_events_are_decoded() {
    let events = [
        TraceEvent::ContextSwitch {
            prev: task("idle"),
            prev_state: OffCpuState::Parked,
            next: task("übung"),
        },
        TraceEvent::TraceMarkBegin {
            task: task(""),
            name: "näme",
        },
        TraceEvent::TraceMarkEnd { task: task("A") },
    ];
    for event in events {
        let mut space = [0u8; 512];
        let mut writer = PayloadWriter::new(&mut space);
        assert_eq!(event.encode(&mut writer, 1, 2), Ok(()));
        let owned = |task: TaskRef<'static>| OwnedTaskRef {
            comm: task.comm,
            tid: task.tid,
            tgid: task.tgid,
            prio: task.prio,
        };
        let expected = match event {
            TraceEvent::ContextSwitch {
                prev,
                prev_state,
                next,
            } => DecodedRecord::ContextSwitch {
                timestamp: 77,
                cpu_id: 1,
                seq: 2,
                prev: owned(prev),
                prev_state,
                next: owned(next),
            },
            TraceEvent::TraceMarkBegin { task, name } => DecodedRecord::TraceMarkBegin {
                timestamp: 77,
                cpu_id: 1,
                seq: 2,
                task: owned(task),
                name,
            },
            TraceEvent::TraceMarkEnd { task } => DecodedRecord::TraceMarkEnd {
                timestamp: 77,
                cpu_id: 1,
                seq: 2,
                task: owned(task),
            },
        };
        assert_eq!(raw(event.event_id(), writer.written()).decode(), Some(expected));
    }
}

#[test]
fn malformed_payloads_are_not_decoded() {
    let mut space = [0u8; 64];
    let mut writer = PayloadWriter::new(&mut space);
    let event = TraceEvent::TraceMarkEnd { task: task("ab") };
    assert_eq!(event.encode(&mut writer, 5, 9), Ok(()));
    let mut payload = writer.written().to_vec();
    assert!(raw(3, &payload).decode().is_some());
    assert_eq!(raw(4, &payload).decode(), None);
    assert_eq!(raw(1, &payload).decode(), None);
    assert_eq!(raw(2, &payload).decode(), None);
    for len in 0..payload.len() {
        assert_eq!(raw(3, &payload[..len]).decode(), None);
    }
    payload[27] = 0xff;
    assert_eq!(raw(3, &payload).decode(), None);
}

#[test]
fn strings_must_be_utf8() {
    let mut reader = PayloadReader::new(&[2, 0, 0xc3, 0xa4, 1, 0, 0x80, 0, 0, 9]);
    assert_eq!(reader.str(), Some("ä"));
    assert_eq!(reader.str(), None);
    let mut reader = PayloadReader::new(&[0, 0, 1, 0]);
    assert_eq!(reader.str(), Some(""));
    assert_eq!(reader.str(), None);
}

#[test]
fn payload_space_is_limited() {
    let mut space = [0u8; 10];
    let mut writer = PayloadWriter::new(&mut space);
    assert_eq!(writer.u64(1), Ok(()));
    assert_eq!(writer.u32(1), Err(DropReason::RecordTooLarge));
    assert_eq!(writer.u16(0x0201), Ok(()));
    assert_eq!(writer.put(&[1]), Err(DropReason::RecordTooLarge));
    assert_eq!(writer.written(), [1, 0, 0, 0, 0, 0, 0, 0, 1, 2]);
}

fn ring_with(records: &[(usize, u16, RecordKind)], size: usize) -> Vec<u8> {
    let mut ring = vec![0u8; size];
    for (at, len, kind) in records {
        encode_header(&mut ring, *at, *len, *kind, 1, *at as u64);
    }
    ring
}

#[test]
fn reader_skips_padding_and_wraps() {
    let ring = ring_with(
        &[
            (24, 16, RecordKind::Instant),
            (40, 16, RecordKind::Padding),
            (0, 24, RecordKind::Counter),
        ],
        56,
    );
    let records = RecordIter::new(&ring, 24, 56).collect();
    assert_eq!(records.len(), 2);
    assert_eq!(records[0].header.kind, RecordKind::Instant);
    assert_eq!(records[0].payload.len(), 0);
    assert_eq!(records[1].header.kind, RecordKind::Counter);
    assert_eq!(records[1].payload, &ring[16..24]);
}

#[test]
fn reader_skips_bytes_too_few_for_a_header() {
    let ring = ring_with(
        &[(16, 16, RecordKind::Instant), (0, 16, RecordKind::Counter)],
        40,
    );
    let mut iter = RecordIter::new(&ring, 16, 40);
    assert_eq!(iter.next().unwrap().header.kind, RecordKind::Instant);
    assert_eq!(iter.next().unwrap().header.kind, RecordKind::Counter);
    assert_eq!(iter.next(), None);
    assert_eq!(iter.next(), None);
}

#[test]
fn reader_stops_at_malformed_records() {
    let ring = ring_with(&[(0, 16, RecordKind::Instant)], 64);
    assert_eq!(RecordIter::new(&ring, 0, 64).collect().len(), 1);
    assert_eq!(RecordIter::new(&ring, 0, 15).collect().len(), 0);
    assert_eq!(RecordIter::new(&ring, 65, 64).collect().len(), 0);
    assert_eq!(RecordIter::new(&[], 0, 64).collect().len(), 0);
    for len in [0, 8, 32, 72] {
        let ring = ring_with(&[(0, len, RecordKind::Instant)], 64);
        assert_eq!(RecordIter::new(&ring, 0, 24).collect().len(), 0);
    }
}
