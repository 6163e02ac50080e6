//! What appends do to the ring of one CPU.

use ostrace::append::{append_event, plan_event, put_event};
use ostrace::payload::{PayloadWriter, TraceEvent};
use ostrace::ring::{
    append_encoded_record, drop_oldest_record, ensure_space, plan_record, write_padding,
    write_placed, Placement,
};
use ostrace::{
    AppendStatus, BufferMode, CpuState, DecodedRecord, DropReason, OffCpuState, RecordIter,
    RecordKind, TaskRef,
};

const TASK: TaskRef<'static> = TaskRef {
    comm: "A",
    tid: 1,
    tgid: 1,
    prio: 120,
};

fn mark(name: &str) -> TraceEvent<'_> {
    TraceEvent::TraceMarkBegin { task: TASK, name }
}

fn names<'a>(state: &CpuState, ring: &'a [u8]) -> Vec<(u64, &'a str)> {
    let mut out = Vec::new();
    for record in RecordIter::new(ring, state.read_pos, state.used).collect() {
        match record.decode() {
            Some(DecodedRecord::TraceMarkBegin { seq, name, .. }) => out.push((seq, name)),
            _ => out.push((u64::MAX, "other")),
        }
    }
    out
}

#[test]
fn record_sizes_are_stable() {
    let mut state = CpuState::new();
    let mut ring = [0u8; 512];
    let next = TaskRef { comm: "idle", ..TASK };
    let switch = TraceEvent::ContextSwitch {
        prev: TASK,
        prev_state: OffCpuState::Running,
        next,
    };
    let mode = BufferMode::Overwrite;
    assert_eq!(append_event(&mut state, &mut ring, mode, 0, 1, switch), AppendStatus::Written);
    assert_eq!(state.used, 72);
    assert_eq!(append_event(&mut state, &mut ring, mode, 0, 2, mark("abc")), AppendStatus::Written);
    assert_eq!(state.used, 72 + 48);
    let end = TraceEvent::TraceMarkEnd { task: TASK };
    assert_eq!(append_event(&mut state, &mut ring, mode, 0, 3, end), AppendStatus::Written);
    assert_eq!(state.used, 72 + 48 + 48);
    assert_eq!(state.write_pos, state.used);
    assert_eq!(state.per_cpu_seq, 3);
}

#[test]
fn full_ring_refuses_and_keeps_its_records() {
    let mut state = CpuState::new();
    let mut ring = [0u8; 96];
    let mode = BufferMode::StopOnFull;
    assert_eq!(append_event(&mut state, &mut ring, mode, 0, 1, mark("one")), AppendStatus::Written);
    assert_eq!(append_event(&mut state, &mut ring, mode, 0, 2, mark("two")), AppendStatus::Written);
    let before = ring;
    let full = AppendStatus::Dropped(DropReason::BufferFull);
    assert_eq!(append_event(&mut state, &mut ring, mode, 0, 3, mark("six")), full);
    assert_eq!(ring, before);
    assert_eq!(state.dropped(), 1);
    assert_eq!(state.reentrant_dropped(), 0);
    assert_eq!(state.per_cpu_seq, 3);
    assert_eq!(names(&state, &ring), [(0, "one"), (1, "two")]);
}

#[test]
fn overwriting_drops_the_oldest_records() {
    let mut state = CpuState::new();
    let mut ring = [0u8; 144];
    let mode = BufferMode::Overwrite;
    for (time, name) in ["one", "two", "six", "ten"].into_iter().enumerate() {
        assert_eq!(
            append_event(&mut state, &mut ring, mode, 0, time as u64, mark(name)),
            AppendStatus::Written
        );
    }
    assert_eq!(names(&state, &ring), [(1, "two"), (2, "six"), (3, "ten")]);
    assert_eq!(state.dropped(), 1);
    assert_eq!(state.used, 144);
    assert_eq!(state.write_pos, 48);
    assert_eq!(state.read_pos, 48);
}

#[test]
fn padding_fills_the_end_of_the_ring() {
    let mut state = CpuState::new();
    let mut ring = [0xaau8; 120];
    let mode = BufferMode::Overwrite;
    for name in ["one", "two"] {
        assert_eq!(
            append_event(&mut state, &mut ring, mode, 0, 7, mark(name)),
            AppendStatus::Written
        );
    }
    assert_eq!(append_event(&mut state, &mut ring, mode, 0, 7, mark("six")), AppendStatus::Written);
    assert_eq!(&ring[96..100], [24, 0, 255, 0]);
    assert_eq!(&ring[100..120], [0u8; 20]);
    assert_eq!(names(&state, &ring), [(1, "two"), (2, "six")]);
    assert_eq!(state.dropped(), 1);
    assert_eq!(append_event(&mut state, &mut ring, mode, 0, 7, mark("ten")), AppendStatus::Written);
    assert_eq!(names(&state, &ring), [(2, "six"), (3, "ten")]);
    assert_eq!(state.dropped(), 2);
    assert_eq!(append_event(&mut state, &mut ring, mode, 0, 7, mark("end")), AppendStatus::Written);
    assert_eq!(names(&state, &ring), [(3, "ten"), (4, "end")]);
    assert_eq!(state.dropped(), 4);
}

#[test]
fn short_ends_are_cleared_without_a_header() {
    let mut state = CpuState::new();
    let mut ring = [0xaau8; 104];
    let mode = BufferMode::Overwrite;
    for name in ["one", "two", "six"] {
        assert_eq!(
            append_event(&mut state, &mut ring, mode, 0, 7, mark(name)),
            AppendStatus::Written
        );
    }
    assert_eq!(&ring[96..104], [0u8; 8]);
    assert_eq!(names(&state, &ring), [(1, "two"), (2, "six")]);
    assert_eq!(append_event(&mut state, &mut ring, mode, 0, 7, mark("ten")), AppendStatus::Written);
    assert_eq!(names(&state, &ring), [(2, "six"), (3, "ten")]);
    assert_eq!(state.dropped(), 2);
}

#[test]
fn large_records_are_refused() {
    let mut state = CpuState::new();
    let mut ring = [0u8; 1024];
    let too_large = AppendStatus::Dropped(DropReason::RecordTooLarge);
    let mode = BufferMode::Overwrite;
    let fits = "x".repeat(512 - 29);
    let long = "x".repeat(512 - 28);
    assert_eq!(append_event(&mut state, &mut ring, mode, 0, 1, mark(&long)), too_large);
    assert_eq!(state.per_cpu_seq, 1);
    assert_eq!(append_event(&mut state, &mut ring, mode, 0, 1, mark(&fits)), AppendStatus::Written);
    assert_eq!(state.used, 528);
    let huge = "x".repeat(70_000);
    assert_eq!(append_event(&mut state, &mut ring, mode, 0, 1, mark(&huge)), too_large);

    let mut state = CpuState::new();
    let mut small = [0u8; 40];
    assert_eq!(append_event(&mut state, &mut small, mode, 0, 1, mark("abc")), too_large);
    assert_eq!(small, [0u8; 40]);
    assert_eq!(state.dropped(), 1);
}

#[test]
fn ring_starts_over_when_padding_leaves_no_room() {
    let mut state = CpuState::new();
    let mut ring = [0u8; 96];
    let mode = BufferMode::Overwrite;
    let end = TraceEvent::TraceMarkEnd { task: TASK };
    assert_eq!(append_event(&mut state, &mut ring, mode, 0, 1, end), AppendStatus::Written);
    assert_eq!(state.used, 48);
    assert_eq!(
        append_event(&mut state, &mut ring, mode, 0, 2, mark("first")),
        AppendStatus::Written
    );
    assert_eq!(names(&state, &ring), [(1, "first")]);
    assert_eq!((state.read_pos, state.write_pos, state.used), (0, 56, 56));
    assert_eq!(state.dropped(), 1);
    let name = "x".repeat(51);
    assert_eq!(
        append_event(&mut state, &mut ring, mode, 0, 3, mark(&name)),
        AppendStatus::Written
    );
    assert_eq!(names(&state, &ring), [(2, name.as_str())]);
    assert_eq!((state.read_pos, state.write_pos, state.used), (0, 0, 96));
}

#[test]
fn full_ring_refuses_a_record_that_padding_leaves_no_room_for() {
    let mut state = CpuState::new();
    let mut ring = [0u8; 96];
    let mode = BufferMode::StopOnFull;
    let end = TraceEvent::TraceMarkEnd { task: TASK };
    assert_eq!(append_event(&mut state, &mut ring, mode, 0, 1, end), AppendStatus::Written);
    let before = ring;
    assert_eq!(
        append_event(&mut state, &mut ring, mode, 0, 2, mark("first")),
        AppendStatus::Dropped(DropReason::BufferFull)
    );
    assert_eq!(ring, before);
    assert_eq!((state.used, state.write_pos, state.dropped()), (48, 48, 1));
    let name = "x".repeat(52);
    assert_eq!(
        append_event(&mut state, &mut ring, mode, 0, 3, mark(&name)),
        AppendStatus::Dropped(DropReason::RecordTooLarge)
    );
}

#[test]
fn records_of_the_padding_kind_are_skipped_by_readers() {
    let mut state = CpuState::new();
    let mut ring = [0u8; 96];
    let mode = BufferMode::Overwrite;
    assert_eq!(
        append_encoded_record(&mut state, &mut ring, mode, RecordKind::Padding, 0, 0, &[1, 2]),
        Ok(())
    );
    assert_eq!(state.used, 24);
    assert_eq!(append_event(&mut state, &mut ring, mode, 0, 1, mark("abc")), AppendStatus::Written);
    assert_eq!(names(&state, &ring), [(0, "abc")]);
}

#[test]
fn reentrant_appends_take_no_sequence_number() {
    let mut state = CpuState::new();
    state.set_writer_active_for_test(true);
    let mut ring = [0u8; 96];
    assert_eq!(
        append_event(&mut state, &mut ring, BufferMode::Overwrite, 0, 1, mark("abc")),
        AppendStatus::Dropped(DropReason::Reentrant)
    );
    assert_eq!(state.dropped(), 1);
    assert_eq!(state.reentrant_dropped(), 1);
    assert_eq!(state.per_cpu_seq, 0);
    assert!(state.writer_active);
    assert_eq!(ring, [0u8; 96]);
}

#[test]
fn counters_saturate() {
    let mut state = CpuState::new();
    state.dropped = u64::MAX;
    state.reentrant_dropped = u64::MAX;
    state.per_cpu_seq = u64::MAX;
    let mut ring = [0u8; 96];
    let mode = BufferMode::Overwrite;
    assert_eq!(append_event(&mut state, &mut ring, mode, 0, 1, mark("abc")), AppendStatus::Written);
    assert_eq!(state.per_cpu_seq, u64::MAX);
    assert_eq!(names(&state, &ring), [(u64::MAX, "abc")]);
    state.writer_active = true;
    append_event(&mut state, &mut ring, mode, 0, 1, mark("abc"));
    assert_eq!(state.dropped(), u64::MAX);
    assert_eq!(state.reentrant_dropped(), u64::MAX);
}

#[test]
fn dropping_unreadable_records_moves_on() {
    let ring = [0u8; 64];
    let mut state = CpuState::new();
    state.used = 20;
    drop_oldest_record(&mut state, &ring);
    assert_eq!((state.read_pos, state.used, state.dropped), (8, 12, 1));
    drop_oldest_record(&mut state, &ring);
    assert_eq!((state.read_pos, state.used, state.dropped), (16, 4, 2));
    drop_oldest_record(&mut state, &ring);
    assert_eq!((state.read_pos, state.used, state.dropped), (20, 0, 3));
    drop_oldest_record(&mut state, &ring);
    assert_eq!((state.read_pos, state.used, state.dropped), (20, 0, 3));
}

#[test]
fn space_is_made_only_as_needed() {
    let ring = [0u8; 64];
    let mut state = CpuState::new();
    state.used = 64;
    assert_eq!(
        ensure_space(&mut state, &ring, BufferMode::Overwrite, 65),
        Err(DropReason::RecordTooLarge)
    );
    assert_eq!(
        ensure_space(&mut state, &ring, BufferMode::StopOnFull, 1),
        Err(DropReason::BufferFull)
    );
    assert_eq!(state.used, 64);
    assert_eq!(ensure_space(&mut state, &ring, BufferMode::StopOnFull, 0), Ok(()));
    assert_eq!(ensure_space(&mut state, &ring, BufferMode::Overwrite, 9), Ok(()));
    assert_eq!(state.used, 48);
    assert_eq!(state.dropped, 2);
}

#[test]
fn padding_has_a_header_where_one_fits() {
    let mut ring = [0xaau8; 64];
    write_padding(&mut ring, 8, 24);
    assert_eq!(&ring[8..12], [24, 0, 255, 0]);
    assert_eq!(&ring[12..32], [0u8; 20]);
    write_padding(&mut ring, 40, 8);
    assert_eq!(&ring[40..48], [0u8; 8]);
    assert_eq!(&ring[..8], [0xaau8; 8]);
    assert_eq!(&ring[32..40], [0xaau8; 8]);
    assert_eq!(&ring[48..], [0xaau8; 16]);
}

#[test]
fn placed_records_are_those_that_are_appended() {
    let mut state = CpuState::new();
    let mut ring = [0u8; 120];
    let mode = BufferMode::Overwrite;
    let payload = [7u8; 30];
    for _ in 0..2 {
        assert_eq!(
            append_encoded_record(
                &mut state,
                &mut ring,
                mode,
                RecordKind::DurationEnd,
                5,
                9,
                &payload
            ),
            Ok(())
        );
    }
    let mut region = [0xbbu8; 140];
    region[10..130].copy_from_slice(&ring);
    let mut planned = state;
    let place = plan_record(&mut planned, &ring, mode, payload.len()).unwrap();
    assert_eq!(
        place,
        Placement {
            padding_at: 96,
            padding: 24,
            start: 0,
            total: 48,
        }
    );
    write_placed(
        &mut region,
        10,
        place,
        RecordKind::DurationEnd,
        5,
        9,
        &payload,
        payload.len(),
    );
    assert_eq!(
        append_encoded_record(
            &mut state,
            &mut ring,
            mode,
            RecordKind::DurationEnd,
            5,
            9,
            &payload
        ),
        Ok(())
    );
    assert_eq!(planned, state);
    assert_eq!(&region[10..130], &ring);
    assert_eq!(&region[..10], [0xbbu8; 10]);
    assert_eq!(&region[130..], [0xbbu8; 10]);

    let mut full = CpuState::new();
    assert_eq!(
        plan_record(&mut full, &ring, mode, 105),
        Err(DropReason::RecordTooLarge)
    );
    assert_eq!(full, CpuState::new());
}

#[test]
fn planned_events_are_those_that_are_put() {
    let mut planned = CpuState::new();
    planned.writer_active = true;
    let mut state = planned;
    let mut ring = [0u8; 96];
    let mode = BufferMode::StopOnFull;
    let mut scratch = [0u8; 512];
    let mut writer = PayloadWriter::new(&mut scratch);
    let place = plan_event(&mut planned, &ring, mode, 3, 11, mark("abc"), &mut writer).unwrap();
    assert_eq!(place.total, 48);
    assert_eq!(writer.written().len(), 32);
    assert_eq!(put_event(&mut state, &mut ring, mode, 3, 11, 9, mark("abc")), Ok(()));
    assert_eq!(planned, state);
    assert!(state.writer_active);
    assert_eq!(names(&state, &ring), [(11, "abc")]);

    let long = "n".repeat(600);
    let mut other = [0u8; 512];
    assert_eq!(
        plan_event(
            &mut planned,
            &ring,
            mode,
            3,
            12,
            mark(&long),
            &mut PayloadWriter::new(&mut other)
        ),
        Err(DropReason::RecordTooLarge)
    );
    assert_eq!(planned, state);
}
