//! What holds after many appends.

use ostrace::{
    AppendStatus, BufferMode, CpuBuffer, DecodedRecord, DropReason, SessionConfig, TaskRef,
    TraceConfig, TraceImage, TraceImageConfig, TracePlatform, TraceRecorder, TraceSession,
    TraceSessionStorage, TraceStorage,
};

struct Counter {
    cpus: u32,
    calls: core::cell::Cell<u64>,
}

impl Counter {
    fn new(cpus: u32) -> Self {
        Counter {
            cpus,
            calls: core::cell::Cell::new(0),
        }
    }
}

impl TracePlatform for Counter {
    fn now_ns(&self) -> u64 {
        let call = self.calls.get();
        self.calls.set(call + 1);
        call
    }

    fn cpu_id(&self) -> u32 {
        (self.calls.get() * 7 / 3) as u32 % self.cpus
    }
}

const TASK: TaskRef<'static> = TaskRef {
    comm: "A",
    tid: 1,
    tgid: 1,
    prio: 120,
};

fn name(call: usize) -> String {
    "n".repeat(call * 5 % 97)
}

fn call_session(
    session: &mut TraceSession<'_, Counter, 2>,
    calls: usize,
) -> (Vec<AppendStatus>, [Vec<u64>; 2], [Vec<(u64, u64)>; 2]) {
    let mut statuses = Vec::new();
    let mut on = [Vec::new(), Vec::new()];
    let mut written = [Vec::new(), Vec::new()];
    for call in 0..calls {
        let cpu = session.platform.cpu_id() as usize;
        let status = session.trace_mark_begin(TASK, &name(call));
        statuses.push(status);
        if cpu < 2 {
            if status == AppendStatus::Written {
                written[cpu].push((on[cpu].len() as u64, call as u64));
            }
            on[cpu].push(call as u64);
        }
    }
    (statuses, on, written)
}

fn check_history(mode: BufferMode) {
    let mut storage = TraceStorage::new();
    let mut recorder = TraceRecorder::new(TraceConfig {
        storage: &mut storage,
        cpu_count: 2,
        platform: Counter::new(3),
    })
    .unwrap();
    let mut state = TraceSessionStorage::<2>::new();
    let mut buf0 = [0u8; 424];
    let mut buf1 = [0u8; 424];
    let mut buffers = [
        CpuBuffer { bytes: &mut buf0 },
        CpuBuffer { bytes: &mut buf1 },
    ];
    let mut session = recorder
        .start_session(SessionConfig {
            state: &mut state,
            cpu_buffers: &mut buffers,
            mode,
        })
        .unwrap();
    let (statuses, on, written) = call_session(&mut session, 300);
    assert!(statuses.contains(&AppendStatus::Dropped(DropReason::InvalidCpu)));

    let mut bytes = vec![0u8; 2048];
    let mut image = TraceImage::init(TraceImageConfig {
        bytes: &mut bytes,
        cpu_count: 2,
        per_cpu_buffer_size: 424,
        mode,
        platform: Counter::new(3),
    })
    .unwrap();
    for (call, status) in statuses.iter().enumerate() {
        assert_eq!(image.trace_mark_begin(TASK, &name(call)), *status);
    }

    let shown = session.snapshot();
    let imaged = image.snapshot();
    for cpu in 0..2 {
        let records = shown.cpu_stream(cpu).unwrap().records().collect();
        assert_eq!(imaged.cpu_stream(cpu).unwrap().records().collect(), records);
        let mut found = Vec::new();
        for record in &records {
            match record.decode() {
                Some(DecodedRecord::TraceMarkBegin { timestamp, seq, .. }) => {
                    found.push((seq, timestamp))
                }
                _ => panic!("not a trace mark"),
            }
        }
        assert!(written[cpu].ends_with(&found));
        assert!(!found.is_empty());
        assert!(found.windows(2).all(|pair| pair[0].0 < pair[1].0));
        let dropped = session.state.cpu_state(cpu).unwrap().dropped() as usize;
        assert!(dropped >= on[cpu].len() - records.len());
        if mode == BufferMode::StopOnFull {
            assert_eq!(dropped, on[cpu].len() - records.len());
            assert_eq!(found, written[cpu]);
        }
    }
}

#[test]
fn overwriting_histories_agree() {
    check_history(BufferMode::Overwrite);
}

#[test]
fn stopping_histories_agree() {
    check_history(BufferMode::StopOnFull);
}

#[test]
fn session_drops_oldest_records_until_the_new_one_fits() {
    let mut storage = TraceStorage::new();
    let mut recorder = TraceRecorder::new(TraceConfig {
        storage: &mut storage,
        cpu_count: 1,
        platform: Counter::new(1),
    })
    .unwrap();
    let mut state = TraceSessionStorage::<1>::new();
    let mut buf = [0u8; 96];
    let mut buffers = [CpuBuffer { bytes: &mut buf }];
    let mut session = recorder
        .start_session(SessionConfig {
            state: &mut state,
            cpu_buffers: &mut buffers,
            mode: BufferMode::Overwrite,
        })
        .unwrap();
    assert_eq!(session.trace_mark_end(TASK), AppendStatus::Written);
    assert_eq!(session.trace_mark_begin(TASK, "first"), AppendStatus::Written);
    let records = session.snapshot().cpu_stream(0).unwrap().records().collect();
    assert_eq!(records.len(), 1);
    assert!(matches!(
        records[0].decode(),
        Some(DecodedRecord::TraceMarkBegin {
            seq: 1,
            name: "first",
            ..
        })
    ));
}
