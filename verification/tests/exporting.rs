//! Bytrace text, the order of its lines, and numbers as text.

use ostrace::export::bytrace::{write_bytrace, write_image_bytrace, write_records};
use ostrace::export::order::{sort_key, sort_records};
use ostrace::text::{parse_u64, push_decimal, push_flush_left, push_flush_right, push_signed};
use ostrace::{
    AppendStatus, BufferMode, CpuBuffer, DecodedRecord, OffCpuState, OwnedTaskRef, SessionConfig,
    TaskRef, TraceConfig, TraceImage, TraceImageConfig, TraceImageSnapshot, TracePlatform,
    TraceRecorder, TraceSessionStorage, TraceStorage,
};

const HEADER: &str = "#
#                              _-----=> irqs-off
#                             / _----=> need-resched
#                            | / _---=> hardirq/softirq
#                            || / _--=> preempt-depth
#                            ||| /     delay
#           TASK-PID   TGID   CPU#  ||||    TIMESTAMP  FUNCTION

";

struct Script {
    steps: Vec<(u32, u64)>,
    next: core::cell::Cell<usize>,
}

impl Script {
    fn new(steps: &[(u32, u64)]) -> Self {
        Script {
            steps: steps.to_vec(),
            next: core::cell::Cell::new(0),
        }
    }
}

impl TracePlatform for Script {
    fn now_ns(&self) -> u64 {
        let step = self.next.get();
        self.next.set(step + 1);
        self.steps[step].1
    }

    fn cpu_id(&self) -> u32 {
        self.steps[self.next.get()].0
    }
}

fn owned(comm: &str, tid: u32, tgid: u32, prio: i32) -> OwnedTaskRef<'_> {
    OwnedTaskRef {
        comm,
        tid,
        tgid,
        prio,
    }
}

fn end(timestamp: u64, cpu_id: u32, seq: u64, tid: u32) -> DecodedRecord<'static> {
    DecodedRecord::TraceMarkEnd {
        timestamp,
        cpu_id,
        seq,
        task: owned("A", tid, 1, 0),
    }
}

fn tids(records: &[DecodedRecord<'_>]) -> Vec<u32> {
    let mut out = Vec::new();
    for record in records {
        match record {
            DecodedRecord::TraceMarkEnd { task, .. } => out.push(task.tid),
            _ => unreachable!(),
        }
    }
    out
}

#[test]
fn text_without_records_is_the_header() {
    let mut text = String::from("before\n");
    write_records(Vec::new(), &mut text);
    assert_eq!(
        text,
        format!("before\n# tracer: nop\n# entries-in-buffer/entries-written: 0/0\n{HEADER}")
    );
}

#[test]
fn text_of_each_record_is_stable() {
    let records = vec![
        DecodedRecord::TraceMarkEnd {
            timestamp: u64::MAX,
            cpu_id: 12,
            seq: 0,
            task: owned("a-very-long-task-name", u32::MAX, 123456, 0),
        },
        DecodedRecord::TraceMarkBegin {
            timestamp: 1_000_000_999,
            cpu_id: 1234,
            seq: 0,
            task: owned("täsk", 7, 42, 0),
            name: "a|b ü",
        },
        DecodedRecord::ContextSwitch {
            timestamp: 999_999_999,
            cpu_id: 0,
            seq: 0,
            prev: owned("idle", 0, 0, -5),
            prev_state: OffCpuState::Unknown(9999),
            next: owned("", 1, 1, i32::MIN),
        },
    ];
    let mut text = String::new();
    write_records(records, &mut text);
    let lines = "\
idle        -0 (    0) [000] .... 0.999999: sched_switch: prev_comm=idle prev_pid=0 prev_prio=-5 prev_state=R ==> next_comm= next_pid=1 next_prio=-2147483648
täsk        -7 (   42) [1234] .... 1.000000: tracing_mark_write: B|42|a|b ü
a-very-long-task-name-4294967295 (123456) [012] .... 18446744073.709551: tracing_mark_write: E|123456
";
    assert_eq!(
        text,
        format!("# tracer: nop\n# entries-in-buffer/entries-written: 3/3\n{HEADER}{lines}")
    );
}

#[test]
fn records_are_sorted_by_time_then_cpu_then_sequence() {
    let records = vec![
        end(2, 0, 0, 1),
        end(1, 1, 5, 2),
        end(1, 1, 4, 3),
        end(1, 0, 9, 4),
        end(0, 7, 7, 5),
    ];
    assert_eq!(sort_key(&records[1]), (1, 1, 5));
    let sorted = sort_records(records);
    assert_eq!(tids(&sorted), [5, 4, 3, 2, 1]);
}

#[test]
fn records_of_the_same_key_keep_their_order() {
    let mut records = Vec::new();
    for tid in 0..100 {
        records.push(end((tid % 3) as u64, 0, 0, tid));
    }
    let sorted = tids(&sort_records(records));
    let mut expected = Vec::new();
    for time in 0..3 {
        for tid in 0..100 {
            if tid % 3 == time {
                expected.push(tid);
            }
        }
    }
    assert_eq!(sorted, expected);
}

#[test]
fn text_does_not_depend_on_the_order_of_records() {
    let records = vec![end(3, 0, 0, 1), end(1, 1, 0, 2), end(1, 0, 0, 3), end(1, 0, 1, 4)];
    let mut expected = String::new();
    write_records(records.clone(), &mut expected);
    for turn in 0..4 {
        let mut other = records.clone();
        other.rotate_left(turn);
        other.swap(0, 2);
        let mut text = String::new();
        write_records(other, &mut text);
        assert_eq!(text, expected);
    }
}

#[test]
fn many_records_are_sorted_quickly() {
    let mut records = Vec::new();
    for i in 0..200_000u64 {
        records.push(end((i * 7919) % 200_003, 0, 0, 0));
    }
    let sorted = sort_records(records);
    assert_eq!(sorted.len(), 200_000);
    for pair in sorted.windows(2) {
        assert!(sort_key(&pair[0]) <= sort_key(&pair[1]));
    }
}

#[test]
fn dump_exports_the_text_of_the_session() {
    let task = TaskRef {
        comm: "A",
        tid: 1,
        tgid: 1,
        prio: 120,
    };
    let steps = [(1, 30), (0, 10), (1, 20)];

    let mut ram = vec![0u8; 100 + 2048];
    let mut image_text = String::new();
    {
        let mut image = TraceImage::init(TraceImageConfig {
            bytes: &mut ram[100..],
            cpu_count: 2,
            per_cpu_buffer_size: 256,
            mode: BufferMode::Overwrite,
            platform: Script::new(&steps),
        })
        .unwrap();
        assert_eq!(image.trace_mark_begin(task, "x"), AppendStatus::Written);
        assert_eq!(
            image.context_switch(task, OffCpuState::Sleeping, task),
            AppendStatus::Written
        );
        assert_eq!(image.trace_mark_end(task), AppendStatus::Written);
        write_image_bytrace(image.snapshot(), &mut image_text);
    }
    let mut dump_text = String::new();
    let snapshot = TraceImageSnapshot::parse_from_ram(&ram, 0x1000, 0x1064).unwrap();
    write_image_bytrace(snapshot, &mut dump_text);
    assert_eq!(dump_text, image_text);

    let mut storage = TraceStorage::new();
    let mut recorder = TraceRecorder::new(TraceConfig {
        storage: &mut storage,
        cpu_count: 2,
        platform: Script::new(&steps),
    })
    .unwrap();
    let mut state = TraceSessionStorage::<2>::new();
    let mut buf0 = [0u8; 256];
    let mut buf1 = [0u8; 256];
    let mut buffers = [
        CpuBuffer { bytes: &mut buf0 },
        CpuBuffer { bytes: &mut buf1 },
    ];
    let mut session = recorder
        .start_session(SessionConfig {
            state: &mut state,
            cpu_buffers: &mut buffers,
            mode: BufferMode::Overwrite,
        })
        .unwrap();
    assert_eq!(session.trace_mark_begin(task, "x"), AppendStatus::Written);
    assert_eq!(
        session.context_switch(task, OffCpuState::Sleeping, task),
        AppendStatus::Written
    );
    assert_eq!(session.trace_mark_end(task), AppendStatus::Written);
    let mut session_text = String::new();
    write_bytrace(session.snapshot(), &mut session_text);
    assert_eq!(session_text, image_text);
    assert!(session_text.ends_with(
        "A           -1 (    1) [001] .... 0.000000: tracing_mark_write: B|1|x\n"
    ));
}

#[test]
fn unreadable_records_are_left_out() {
    let task = TaskRef {
        comm: "A",
        tid: 1,
        tgid: 1,
        prio: 120,
    };
    let mut bytes = vec![0u8; 1024];
    {
        let mut image = TraceImage::init(TraceImageConfig {
            bytes: &mut bytes,
            cpu_count: 1,
            per_cpu_buffer_size: 256,
            mode: BufferMode::Overwrite,
            platform: Script::new(&[(0, 1), (0, 2)]),
        })
        .unwrap();
        assert_eq!(image.trace_mark_end(task), AppendStatus::Written);
        assert_eq!(image.trace_mark_end(task), AppendStatus::Written);
    }
    bytes[176 + 4] = 99;
    let mut text = String::new();
    write_image_bytrace(TraceImageSnapshot::parse(&bytes).unwrap(), &mut text);
    assert!(text.contains("entries-written: 1/1"));
    assert_eq!(text.matches("tracing_mark_write").count(), 1);
}

#[test]
fn numbers_are_written_in_decimal() {
    let mut out = String::new();
    for n in [0, 9, 10, 1234567890, u64::MAX] {
        push_decimal(&mut out, n);
        out.push(' ');
    }
    assert_eq!(out, "0 9 10 1234567890 18446744073709551615 ");
    let mut out = String::new();
    for v in [0, -1, 120, i32::MIN, i32::MAX] {
        push_signed(&mut out, v);
        out.push(' ');
    }
    assert_eq!(out, "0 -1 120 -2147483648 2147483647 ");
}

#[test]
fn fields_are_padded_to_their_width() {
    let mut out = String::new();
    push_flush_left(&mut out, "ab", 4);
    push_flush_left(&mut out, "äöüß", 5);
    push_flush_left(&mut out, "abcde", 3);
    push_flush_right(&mut out, 7, 5, false);
    push_flush_right(&mut out, 7, 3, true);
    push_flush_right(&mut out, 12345, 3, true);
    assert_eq!(out, "ab  äöüß abcde    700712345");
}

#[test]
fn numbers_are_read_back() {
    for n in [0, 1, 10, 4096, u64::MAX] {
        let mut text = String::new();
        push_decimal(&mut text, n);
        assert_eq!(parse_u64(&text), Some(n));
    }
    assert_eq!(parse_u64("0x80000000"), Some(0x8000_0000));
    assert_eq!(parse_u64("0XfF"), Some(255));
    assert_eq!(parse_u64("+12"), Some(12));
    assert_eq!(parse_u64("0x+1f"), Some(31));
    assert_eq!(parse_u64("00012"), Some(12));
    assert_eq!(parse_u64("0x00000000000000000000000a"), Some(10));
    assert_eq!(parse_u64("18446744073709551615"), Some(u64::MAX));
    assert_eq!(parse_u64("0xffffffffffffffff"), Some(u64::MAX));
}

#[test]
fn texts_that_are_no_numbers_are_refused() {
    for text in [
        "", "+", "-1", "0x", "0x+", "12a", "a", " 1", "1 ", "0xg", "++1", "0x-1", "+0x1", "1_000",
        "18446744073709551616", "0x10000000000000000", "٣",
    ] {
        assert_eq!(parse_u64(text), None, "{text}");
    }
}
