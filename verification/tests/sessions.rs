//! Sessions over separate per-CPU buffers.

use ostrace::{
    AppendStatus, BufferMode, CpuBuffer, CpuState, DecodedRecord, DropReason, GlobalState,
    SessionConfig, TaskRef, TraceConfig, TraceError, TracePlatform, TraceRecorder,
    TraceSessionStorage, TraceStorage,
};

struct Fixed {
    cpu: u32,
    time: u64,
}

impl TracePlatform for Fixed {
    fn now_ns(&self) -> u64 {
        self.time
    }

    fn cpu_id(&self) -> u32 {
        self.cpu
    }
}

const TASK: TaskRef<'static> = TaskRef {
    comm: "A",
    tid: 1,
    tgid: 1,
    prio: 120,
};

fn recorder(storage: &mut TraceStorage, cpu_count: usize, cpu: u32) -> TraceRecorder<'_, Fixed> {
    TraceRecorder::new(TraceConfig {
        storage,
        cpu_count,
        platform: Fixed { cpu, time: 5 },
    })
    .unwrap()
}

#[test]
fn recorder_needs_a_cpu() {
    let mut storage = TraceStorage::new();
    let result = TraceRecorder::new(TraceConfig {
        storage: &mut storage,
        cpu_count: 0,
        platform: Fixed { cpu: 0, time: 0 },
    });
    assert!(matches!(result, Err(TraceError::InvalidCpuCount)));
}

#[test]
fn session_needs_state_for_every_cpu() {
    let mut storage = TraceStorage::new();
    let mut recorder = recorder(&mut storage, 2, 0);
    let mut state = TraceSessionStorage::<1>::new();
    let mut buf = [0u8; 64];
    let mut buffers = [CpuBuffer { bytes: &mut buf }];
    let result = recorder.start_session(SessionConfig {
        state: &mut state,
        cpu_buffers: &mut buffers,
        mode: BufferMode::Overwrite,
    });
    assert!(matches!(result, Err(TraceError::TooManyCpus)));
}

#[test]
fn session_needs_a_buffer_for_every_cpu() {
    let mut storage = TraceStorage::new();
    let mut recorder = recorder(&mut storage, 2, 0);
    let mut state = TraceSessionStorage::<2>::new();
    let mut buf = [0u8; 64];
    let mut buffers = [CpuBuffer { bytes: &mut buf }];
    let result = recorder.start_session(SessionConfig {
        state: &mut state,
        cpu_buffers: &mut buffers,
        mode: BufferMode::Overwrite,
    });
    assert!(matches!(result, Err(TraceError::CpuBufferCountMismatch)));
}

#[test]
fn session_needs_large_enough_buffers() {
    let mut storage = TraceStorage::new();
    let mut recorder = recorder(&mut storage, 2, 0);
    let mut state = TraceSessionStorage::<2>::new();
    let mut buf0 = [1u8; 32];
    let mut buf1 = [1u8; 31];
    {
        let mut buffers = [
            CpuBuffer { bytes: &mut buf0 },
            CpuBuffer { bytes: &mut buf1 },
        ];
        let result = recorder.start_session(SessionConfig {
            state: &mut state,
            cpu_buffers: &mut buffers,
            mode: BufferMode::Overwrite,
        });
        assert!(matches!(result, Err(TraceError::BufferTooSmall)));
    }
    assert_eq!(buf0, [1u8; 32]);
    assert!(!recorder.storage.is_session_active());
}

#[test]
fn session_starts_empty_and_ends_when_dropped() {
    let mut storage = TraceStorage::default();
    assert!(!storage.is_session_active());
    let mut recorder = recorder(&mut storage, 1, 0);
    let mut state = TraceSessionStorage::<2>::default();
    state.cpus[0].dropped = 9;
    state.cpus[1].dropped = 8;
    let mut buf = [0xffu8; 64];
    {
        let mut buffers = [CpuBuffer { bytes: &mut buf }];
        let session = recorder
            .start_session(SessionConfig {
                state: &mut state,
                cpu_buffers: &mut buffers,
                mode: BufferMode::StopOnFull,
            })
            .unwrap();
        assert!(session.storage.is_session_active());
        assert_eq!(*session.state.cpu_state(0).unwrap(), CpuState::new());
        assert_eq!(session.state.cpu_state(1).unwrap().dropped(), 8);
        assert_eq!(session.state.cpu_state(2), None);
        let snapshot = session.snapshot();
        assert_eq!(snapshot.cpu_count(), 1);
        assert!(snapshot.cpu_stream(0).unwrap().records().collect().is_empty());
        assert!(snapshot.cpu_stream(1).is_none());
    }
    assert!(!recorder.storage.is_session_active());
    assert_eq!(buf, [0u8; 64]);
}

#[test]
fn next_session_can_start_after_the_first() {
    let mut storage = TraceStorage::new();
    let mut recorder = recorder(&mut storage, 1, 0);
    let mut state = TraceSessionStorage::<1>::new();
    let mut buf = [0u8; 128];
    {
        let mut buffers = [CpuBuffer { bytes: &mut buf }];
        let mut session = recorder
            .start_session(SessionConfig {
                state: &mut state,
                cpu_buffers: &mut buffers,
                mode: BufferMode::Overwrite,
            })
            .unwrap();
        assert_eq!(session.trace_mark_end(TASK), AppendStatus::Written);
    }
    let mut state = TraceSessionStorage::<1>::new();
    let mut buffers = [CpuBuffer { bytes: &mut buf }];
    let session = recorder
        .start_session(SessionConfig {
            state: &mut state,
            cpu_buffers: &mut buffers,
            mode: BufferMode::Overwrite,
        })
        .unwrap();
    assert!(session.snapshot().cpu_stream(0).unwrap().records().collect().is_empty());
}

#[test]
fn written_event_is_read_from_its_cpu_alone() {
    let mut storage = TraceStorage::new();
    let mut recorder = recorder(&mut storage, 2, 1);
    let mut state = TraceSessionStorage::<2>::new();
    let mut buf0 = [0u8; 64];
    let mut buf1 = [0u8; 64];
    let mut buffers = [
        CpuBuffer { bytes: &mut buf0 },
        CpuBuffer { bytes: &mut buf1 },
    ];
    let mut session = recorder
        .start_session(SessionConfig {
            state: &mut state,
            cpu_buffers: &mut buffers,
            mode: BufferMode::StopOnFull,
        })
        .unwrap();
    assert_eq!(session.trace_mark_begin(TASK, "xy"), AppendStatus::Written);
    assert_eq!(
        session.trace_mark_end(TASK),
        AppendStatus::Dropped(DropReason::BufferFull)
    );
    let snapshot = session.snapshot();
    assert!(snapshot.cpu_stream(0).unwrap().records().collect().is_empty());
    let records = snapshot.cpu_stream(1).unwrap().records().collect();
    assert_eq!(records.len(), 1);
    match records[0].decode() {
        Some(DecodedRecord::TraceMarkBegin {
            timestamp,
            cpu_id,
            seq,
            task,
            name,
        }) => {
            assert_eq!((timestamp, cpu_id, seq), (5, 1, 0));
            assert_eq!((task.comm, task.tid, task.tgid, task.prio), ("A", 1, 1, 120));
            assert_eq!(name, "xy");
        }
        _ => panic!("not a trace mark"),
    }
}

#[test]
fn global_state_starts_inactive() {
    assert!(!GlobalState::new().active_session);
    assert!(!GlobalState::default().active_session);
    assert_eq!(CpuState::default(), CpuState::new());
}
