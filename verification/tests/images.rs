//! Trace images: their layout, their life, and finding them again.

use ostrace::bytes::{read_u32_at, read_u64_at, write_u16_at, write_u32_at, write_u64_at};
use ostrace::layout::{read_cpu_descriptor, write_cpu_descriptor, CpuImageDescriptor};
use ostrace::{
    AppendStatus, BufferMode, CpuState, DecodedRecord, DropReason, OffCpuState, TaskRef, TraceImage,
    TraceImageConfig, TraceImageError, TraceImageSnapshot, TracePlatform, TRACE_IMAGE_MAGIC,
};

struct Fixed {
    cpu: u32,
    time: u64,
}

impl TracePlatform for Fixed {
    fn now_ns(&self) -> u64 {
        self.time
    }

    fn cpu_id(&self) -> u32 {
        self.cpu
    }
}

const TASK: TaskRef<'static> = TaskRef {
    comm: "A",
    tid: 1,
    tgid: 1,
    prio: 120,
};

fn config(bytes: &mut [u8], cpu_count: usize, size: usize, cpu: u32) -> TraceImageConfig<'_, Fixed> {
    TraceImageConfig {
        bytes,
        cpu_count,
        per_cpu_buffer_size: size,
        mode: BufferMode::Overwrite,
        platform: Fixed { cpu, time: 5 },
    }
}

fn sample() -> Vec<u8> {
    let mut bytes = vec![0u8; 400];
    {
        let mut image = TraceImage::init(config(&mut bytes, 2, 64, 1)).unwrap();
        assert_eq!(image.trace_mark_end(TASK), AppendStatus::Written);
    }
    bytes
}

fn error_of(bytes: &[u8]) -> TraceImageError {
    match TraceImageSnapshot::parse(bytes) {
        Ok(_) => panic!("parsed"),
        Err(error) => error,
    }
}

fn ram_error_of(ram: &[u8], ram_base: u64, trace_base: u64) -> TraceImageError {
    match TraceImageSnapshot::parse_from_ram(ram, ram_base, trace_base) {
        Ok(_) => panic!("parsed"),
        Err(error) => error,
    }
}

fn init_error_of(bytes: &mut [u8], cpu_count: usize, size: usize) -> TraceImageError {
    match TraceImage::init(config(bytes, cpu_count, size, 0)) {
        Ok(_) => panic!("initialized"),
        Err(error) => error,
    }
}

#[test]
fn image_configurations_are_checked() {
    let mut bytes = [7u8; 208];
    let too_small = TraceImageError::ImageTooSmall;
    assert_eq!(init_error_of(&mut bytes, 0, 8), TraceImageError::InvalidCpuCount);
    assert_eq!(init_error_of(&mut bytes, 1, 31), TraceImageError::BufferTooSmall);
    assert_eq!(init_error_of(&mut bytes, 1, 33), too_small);
    assert_eq!(init_error_of(&mut bytes, usize::MAX, 32), too_small);
    assert_eq!(init_error_of(&mut bytes, 1, usize::MAX), too_small);
    assert_eq!(init_error_of(&mut bytes, (usize::MAX - 95) / 80, 32), too_small);
    assert_eq!(bytes, [7u8; 208]);
    assert!(TraceImage::init(config(&mut bytes, 1, 32, 0)).is_ok());
}

#[test]
fn image_layout_is_stable() {
    let bytes = sample();
    let mut expected = vec![0u8; 96];
    expected[0..8].copy_from_slice(b"OSTRACE\0");
    assert_eq!(TRACE_IMAGE_MAGIC.to_le_bytes(), *b"OSTRACE\0");
    expected[8] = 1;
    expected[12] = 96;
    expected[14] = 1;
    expected[16] = 1;
    expected[20] = 16;
    expected[22] = 8;
    expected[24] = 2;
    expected[32] = 96;
    expected[40] = 80;
    expected[48] = 0;
    expected[49] = 1;
    expected[56] = 128;
    expected[57] = 1;
    assert_eq!(&bytes[..96], &expected[..]);

    let mut idle = vec![0u8; 80];
    idle[9] = 1;
    idle[16] = 64;
    assert_eq!(&bytes[96..176], &idle[..]);
    let mut used = vec![0u8; 80];
    used[0] = 1;
    used[8] = 64;
    used[9] = 1;
    used[16] = 64;
    used[24] = 48;
    used[40] = 48;
    used[48] = 1;
    assert_eq!(&bytes[176..256], &used[..]);
    assert_eq!(&bytes[256..320], &[0u8; 64]);
    assert_eq!(&bytes[320..328], &[48, 0, 3, 0, 3, 0, 0, 0]);
}

#[test]
fn stop_on_full_images_say_so() {
    let mut bytes = [0u8; 208];
    {
        let mut image = TraceImage::init(TraceImageConfig {
            mode: BufferMode::StopOnFull,
            ..config(&mut bytes, 1, 32, 0)
        })
        .unwrap();
        assert_eq!(
            image.trace_mark_end(TASK),
            AppendStatus::Dropped(DropReason::RecordTooLarge)
        );
    }
    assert_eq!(read_u32_at(&bytes, 72), 1);
    assert_eq!(read_u64_at(&bytes, 96 + 48), 1);
    assert_eq!(read_u64_at(&bytes, 96 + 56), 1);
}

#[test]
fn supplied_region_is_cleared() {
    let mut bytes = [0xffu8; 1024];
    {
        let image = TraceImage::init(config(&mut bytes, 1, 32, 0)).unwrap();
        assert_eq!(image.snapshot().cpu_count(), 1);
    }
    assert_eq!(bytes[176..], [0u8; 848]);
}

#[test]
fn descriptors_are_stored_in_full() {
    let mut b = [0xffu8; 256];
    let desc = CpuImageDescriptor {
        cpu_id: 1,
        buffer_offset: 256,
        buffer_size: 64,
        state: CpuState {
            write_pos: 8,
            read_pos: 16,
            used: 24,
            per_cpu_seq: 5,
            dropped: 3,
            reentrant_dropped: 2,
            writer_active: true,
        },
    };
    write_cpu_descriptor(&mut b, 96, 1, &desc);
    assert_eq!(b[..176], [0xffu8; 176]);
    assert_eq!(read_u32_at(&b, 176), 1);
    assert_eq!(b[180..184], [0xffu8; 4]);
    let mut fields = Vec::new();
    for at in [184, 192, 200, 208, 216, 224, 232, 240, 248] {
        fields.push(read_u64_at(&b, at));
    }
    assert_eq!(fields, [256, 64, 8, 16, 24, 5, 3, 2, 1]);
    write_u16_at(&mut b, 40, 80);
    assert_eq!(read_cpu_descriptor(&b, 96, 1), Some(desc));
    assert_eq!(read_cpu_descriptor(&b, 97, 1), None);
}

#[test]
fn descriptor_can_stand_in_less_than_a_header() {
    let mut b = [0u8; 80];
    write_u16_at(&mut b, 40, 80);
    assert_eq!(read_cpu_descriptor(&b, 0, 0).unwrap().state.used, 80);
    assert_eq!(read_cpu_descriptor(&b, 0, 1), None);
    assert_eq!(read_cpu_descriptor(&b, 1, 0), None);
    assert_eq!(read_cpu_descriptor(&b, usize::MAX, 0), None);
    assert_eq!(read_cpu_descriptor(&b, 0, usize::MAX), None);
    assert_eq!(read_cpu_descriptor(&b[..42], 0, 0), None);
    write_u16_at(&mut b, 40, 79);
    assert_eq!(read_cpu_descriptor(&b, 0, 0), None);
}

#[test]
fn active_flag_follows_the_life_of_an_image() {
    let mut bytes = [0u8; 240];
    {
        let mut image = TraceImage::init(config(&mut bytes, 1, 64, 0)).unwrap();
        image.finish();
        assert_eq!(image.trace_mark_end(TASK), AppendStatus::Written);
        image.finish();
    }
    assert_eq!(read_u64_at(&bytes, 64), 0);
    let image = TraceImage::init(config(&mut bytes, 1, 64, 0)).unwrap();
    core::mem::forget(image);
    assert_eq!(read_u64_at(&bytes, 64), 1);
    drop(TraceImage::init(config(&mut bytes, 1, 64, 0)));
    assert_eq!(read_u64_at(&bytes, 64), 0);
}

#[test]
fn image_that_was_never_finished_is_readable() {
    let mut bytes = vec![0u8; 400];
    let mut image = TraceImage::init(config(&mut bytes, 1, 200, 0)).unwrap();
    assert_eq!(
        image.context_switch(TASK, OffCpuState::Idle, TASK),
        AppendStatus::Written
    );
    assert_eq!(image.trace_mark_begin(TASK, "x"), AppendStatus::Written);
    core::mem::forget(image);
    assert_eq!(read_u64_at(&bytes, 64), 1);
    let snapshot = TraceImageSnapshot::parse(&bytes).unwrap();
    let records = snapshot.cpu_stream(0).unwrap().records().collect();
    assert_eq!(records.len(), 2);
    assert!(matches!(
        records[0].decode(),
        Some(DecodedRecord::ContextSwitch {
            timestamp: 5,
            cpu_id: 0,
            seq: 0,
            prev_state: OffCpuState::Idle,
            ..
        })
    ));
    assert!(matches!(
        records[1].decode(),
        Some(DecodedRecord::TraceMarkBegin {
            seq: 1,
            name: "x",
            ..
        })
    ));
}

#[test]
fn live_snapshot_shows_what_a_dump_shows() {
    let mut bytes = vec![0u8; 400];
    let mut image = TraceImage::init(config(&mut bytes, 2, 64, 1)).unwrap();
    assert_eq!(image.trace_mark_end(TASK), AppendStatus::Written);
    let live = image.snapshot();
    assert_eq!(live.cpu_count(), 2);
    assert_eq!(live.cpu_descriptor_size(), 80);
    let payload = live.cpu_stream(1).unwrap().records().collect()[0].payload.to_vec();
    assert!(live.cpu_stream(0).unwrap().records().collect().is_empty());
    assert!(live.cpu_stream(2).is_none());
    drop(image);
    let parsed = TraceImageSnapshot::parse(&bytes).unwrap();
    assert!(parsed.cpu_stream(0).unwrap().records().collect().is_empty());
    let records = parsed.cpu_stream(1).unwrap().records().collect();
    assert_eq!(records.len(), 1);
    assert_eq!(records[0].payload, &payload[..]);
    assert!(parsed.cpu_stream(2).is_none());
}

#[test]
fn append_on_an_unknown_cpu_changes_nothing() {
    let mut bytes = [0u8; 240];
    let mut other = [0u8; 240];
    {
        let mut image = TraceImage::init(config(&mut bytes, 1, 64, 1)).unwrap();
        assert_eq!(
            image.trace_mark_end(TASK),
            AppendStatus::Dropped(DropReason::InvalidCpu)
        );
        drop(TraceImage::init(config(&mut other, 1, 64, 1)));
    }
    assert_eq!(bytes, other);
}

#[test]
fn overwriting_in_an_image_keeps_the_newest() {
    let mut bytes = vec![0u8; 96 + 80 + 96];
    {
        let mut image = TraceImage::init(config(&mut bytes, 1, 96, 0)).unwrap();
        for name in ["a", "b", "c"] {
            assert_eq!(image.trace_mark_begin(TASK, name), AppendStatus::Written);
        }
    }
    let snapshot = TraceImageSnapshot::parse(&bytes).unwrap();
    let records = snapshot.cpu_stream(0).unwrap().records().collect();
    assert_eq!(records.len(), 2);
    assert!(matches!(
        records[1].decode(),
        Some(DecodedRecord::TraceMarkBegin {
            seq: 2,
            name: "c",
            ..
        })
    ));
    assert_eq!(read_u64_at(&bytes, 96 + 56), 1);
}

#[test]
fn bad_headers_are_refused() {
    let good = sample();
    assert_eq!(error_of(&good[..95]), TraceImageError::ImageTooSmall);
    assert_eq!(error_of(&[]), TraceImageError::ImageTooSmall);
    let mut bad = good.clone();
    bad[0] = b'X';
    assert_eq!(
        error_of(&bad),
        TraceImageError::BadMagic {
            found: TRACE_IMAGE_MAGIC + 9
        }
    );
    let mut bad = good.clone();
    bad[14] = 2;
    assert_eq!(error_of(&bad), TraceImageError::UnsupportedEndian { found: 2 });
    let mut bad = good.clone();
    bad[8] = 2;
    bad[10] = 3;
    assert_eq!(
        error_of(&bad),
        TraceImageError::UnsupportedContainerVersion {
            found_major: 2,
            found_minor: 3
        }
    );
    let mut bad = good.clone();
    write_u16_at(&mut bad, 12, 95);
    assert_eq!(error_of(&bad), TraceImageError::InvalidHeaderSize);
    let version = |found_major, found_minor| TraceImageError::UnsupportedRecordVersion {
        found_major,
        found_minor,
    };
    let mut bad = good.clone();
    bad[16] = 0;
    bad[18] = 4;
    assert_eq!(error_of(&bad), version(0, 4));
    let mut bad = good.clone();
    bad[20] = 24;
    assert_eq!(error_of(&bad), version(1, 0));
    let mut bad = good.clone();
    bad[22] = 4;
    assert_eq!(error_of(&bad), version(1, 0));
    let mut bad = good.clone();
    write_u16_at(&mut bad, 40, 79);
    assert_eq!(error_of(&bad), TraceImageError::InvalidCpuDescriptorSize);
}

#[test]
fn newer_minor_versions_are_accepted() {
    let mut bytes = sample();
    write_u16_at(&mut bytes, 10, 7);
    write_u16_at(&mut bytes, 18, 7);
    write_u16_at(&mut bytes, 12, 128);
    assert!(TraceImageSnapshot::parse(&bytes).is_ok());
}

#[test]
fn larger_descriptors_are_accepted() {
    let old = sample();
    let mut bytes = vec![0u8; 416];
    bytes[..176].copy_from_slice(&old[..176]);
    bytes[192..272].copy_from_slice(&old[176..256]);
    bytes[288..416].copy_from_slice(&old[256..384]);
    write_u16_at(&mut bytes, 40, 96);
    write_u64_at(&mut bytes, 56, 416);
    write_u64_at(&mut bytes, 96 + 8, 288);
    write_u64_at(&mut bytes, 192 + 8, 352);
    let snapshot = TraceImageSnapshot::parse(&bytes).unwrap();
    assert_eq!(snapshot.cpu_descriptor_size(), 96);
    assert_eq!(snapshot.cpu_stream(1).unwrap().records().collect().len(), 1);
}

#[test]
fn images_that_do_not_fit_are_refused() {
    let good = sample();
    assert!(TraceImageSnapshot::parse(&good[..384]).is_ok());
    assert_eq!(error_of(&good[..383]), TraceImageError::ImageTooSmall);
    let mut bad = good.clone();
    write_u64_at(&mut bad, 56, u64::MAX);
    assert_eq!(error_of(&bad), TraceImageError::ImageTooSmall);
    let mut bad = good.clone();
    write_u32_at(&mut bad, 24, 5);
    write_u64_at(&mut bad, 56, 400);
    assert_eq!(error_of(&bad), TraceImageError::InvalidCpuDescriptorSize);
    let mut bad = good.clone();
    write_u64_at(&mut bad, 32, u64::MAX);
    assert_eq!(error_of(&bad), TraceImageError::InvalidCpuDescriptorSize);
    let mut bad = good.clone();
    write_u64_at(&mut bad, 176 + 16, 65);
    assert_eq!(error_of(&bad), TraceImageError::BufferOutOfRange);
    let mut bad = good.clone();
    write_u64_at(&mut bad, 96 + 8, u64::MAX);
    assert_eq!(error_of(&bad), TraceImageError::BufferOutOfRange);
}

#[test]
fn every_cpu_of_a_parsed_image_has_a_stream() {
    let mut bytes = sample();
    write_u64_at(&mut bytes, 56, 0);
    write_u64_at(&mut bytes, 96 + 8, 0);
    write_u64_at(&mut bytes, 96 + 16, 0);
    write_u64_at(&mut bytes, 176 + 8, 0);
    write_u64_at(&mut bytes, 176 + 16, 0);
    let snapshot = TraceImageSnapshot::parse(&bytes).unwrap();
    assert_eq!(snapshot.cpu_count(), 2);
    for cpu in 0..2 {
        assert!(snapshot.cpu_stream(cpu).unwrap().records().collect().is_empty());
    }
}

#[test]
fn ram_dumps_are_checked() {
    let mut ram = vec![0u8; 100];
    ram.extend(sample());
    assert_eq!(
        ram_error_of(&ram, 1001, 1000),
        TraceImageError::TraceBaseBeforeRamBase
    );
    assert_eq!(
        ram_error_of(&ram, 1000, 1405),
        TraceImageError::RamRangeOutOfBounds
    );
    assert_eq!(
        ram_error_of(&ram, 0, u64::MAX),
        TraceImageError::RamRangeOutOfBounds
    );
    assert_eq!(
        ram_error_of(&ram, 1000, 1404),
        TraceImageError::BadMagic { found: 0 }
    );
    assert_eq!(
        ram_error_of(&ram[..483], 1000, 1100),
        TraceImageError::RamRangeOutOfBounds
    );
    let snapshot = TraceImageSnapshot::parse_from_ram(&ram[..484], 1000, 1100).unwrap();
    assert_eq!(snapshot.cpu_stream(1).unwrap().records().collect().len(), 1);
    write_u64_at(&mut ram, 156, 90);
    assert_eq!(ram_error_of(&ram, 1000, 1100), TraceImageError::ImageTooSmall);
}

#[test]
fn refused_append_in_an_image_changes_two_counters() {
    let mut bytes = [0u8; 240];
    let mut before = [0u8; 240];
    for (region, calls) in [(&mut before, 1), (&mut bytes, 2)] {
        let mut image = TraceImage::init(TraceImageConfig {
            mode: BufferMode::StopOnFull,
            ..config(region, 1, 64, 0)
        })
        .unwrap();
        assert_eq!(image.trace_mark_end(TASK), AppendStatus::Written);
        if calls == 2 {
            assert_eq!(
                image.trace_mark_end(TASK),
                AppendStatus::Dropped(DropReason::BufferFull)
            );
        }
    }
    assert_eq!(read_u64_at(&before, 96 + 48), 1);
    assert_eq!(read_u64_at(&before, 96 + 56), 0);
    assert_eq!(read_u64_at(&before, 96 + 72), 0);
    write_u64_at(&mut before, 96 + 48, 2);
    write_u64_at(&mut before, 96 + 56, 1);
    assert_eq!(bytes, before);
}
