//! Layout of a trace image: the header and the CPU descriptors.
//!
//! A trace image is one region of memory. A header starts it, a table with one
//! descriptor per CPU follows, and then one ring buffer per CPU.

use vstd::prelude::*;

use crate::bytes;
use crate::bytes::{
    read_u16_at, read_u32_at, read_u64_at, write_u16_at, write_u32_at, write_u64_at,
};
use crate::record::{RECORD_ALIGN, RECORD_HEADER_SIZE};
use crate::ring::{BufferMode, CpuRing, CpuState};

verus! {

/// Magic value used to identify an `ostrace` trace image in a RAM dump.
pub const TRACE_IMAGE_MAGIC: u64 = 0x0045_4341_5254_534f;

/// Major version of the trace image container layout.
pub const TRACE_IMAGE_CONTAINER_VERSION_MAJOR: u16 = 1;

/// Minor version of the trace image container layout.
pub const TRACE_IMAGE_CONTAINER_VERSION_MINOR: u16 = 0;

/// Major version of the binary record payload format.
pub const TRACE_RECORD_FORMAT_VERSION_MAJOR: u16 = 1;

/// Minor version of the binary record payload format.
pub const TRACE_RECORD_FORMAT_VERSION_MINOR: u16 = 0;

/// Size in bytes of the image header.
pub const TRACE_IMAGE_HEADER_SIZE: usize = 96;

/// Size in bytes of a CPU descriptor.
pub const TRACE_IMAGE_CPU_DESC_SIZE: usize = 80;

/// Endian marker of a little-endian image.
pub const TRACE_IMAGE_ENDIAN_LITTLE: u8 = 1;

/// Header flag of an image that is being written.
pub const TRACE_IMAGE_FLAG_ACTIVE: u64 = 1;

/// Descriptor flag of a CPU that is appending a record.
pub const TRACE_IMAGE_CPU_FLAG_WRITER_ACTIVE: u64 = 1;

/// Offset of the magic value in the header.
pub const TRACE_IMAGE_MAGIC_OFFSET: usize = 0;

/// Offset of the container major version in the header.
pub const TRACE_IMAGE_CONTAINER_MAJOR_OFFSET: usize = 8;

/// Offset of the container minor version in the header.
pub const TRACE_IMAGE_CONTAINER_MINOR_OFFSET: usize = 10;

/// Offset of the header size in the header.
pub const TRACE_IMAGE_HEADER_SIZE_OFFSET: usize = 12;

/// Offset of the endian marker in the header.
pub const TRACE_IMAGE_ENDIAN_OFFSET: usize = 14;

/// Offset of the record format major version in the header.
pub const TRACE_IMAGE_RECORD_MAJOR_OFFSET: usize = 16;

/// Offset of the record format minor version in the header.
pub const TRACE_IMAGE_RECORD_MINOR_OFFSET: usize = 18;

/// Offset of the record header size in the header.
pub const TRACE_IMAGE_RECORD_HEADER_SIZE_OFFSET: usize = 20;

/// Offset of the record alignment in the header.
pub const TRACE_IMAGE_RECORD_ALIGN_OFFSET: usize = 22;

/// Offset of the CPU count in the header.
pub const TRACE_IMAGE_CPU_COUNT_OFFSET: usize = 24;

/// Offset of the offset of the CPU descriptors in the header.
pub const TRACE_IMAGE_CPU_DESC_OFFSET_OFFSET: usize = 32;

/// Offset of the CPU descriptor size in the header.
pub const TRACE_IMAGE_CPU_DESC_SIZE_OFFSET: usize = 40;

/// Offset of the offset of the ring buffers in the header.
pub const TRACE_IMAGE_RING_OFFSET_OFFSET: usize = 48;

/// Offset of the image size in the header.
pub const TRACE_IMAGE_IMAGE_SIZE_OFFSET: usize = 56;

/// Offset of the image flags in the header.
pub const TRACE_IMAGE_FLAGS_OFFSET: usize = 64;

/// Offset of the buffer mode in the header.
pub const TRACE_IMAGE_BUFFER_MODE_OFFSET: usize = 72;

/// Offset of the CPU id in a CPU descriptor.
pub const CPU_DESC_CPU_ID_OFFSET: usize = 0;

/// Offset of the offset of the ring buffer in a CPU descriptor.
pub const CPU_DESC_BUFFER_OFFSET_OFFSET: usize = 8;

/// Offset of the size of the ring buffer in a CPU descriptor.
pub const CPU_DESC_BUFFER_SIZE_OFFSET: usize = 16;

/// Offset of the write position in a CPU descriptor.
pub const CPU_DESC_WRITE_POS_OFFSET: usize = 24;

/// Offset of the read position in a CPU descriptor.
pub const CPU_DESC_READ_POS_OFFSET: usize = 32;

/// Offset of the number of readable bytes in a CPU descriptor.
pub const CPU_DESC_USED_OFFSET: usize = 40;

/// Offset of the next sequence number in a CPU descriptor.
pub const CPU_DESC_NEXT_SEQ_OFFSET: usize = 48;

/// Offset of the drop counter in a CPU descriptor.
pub const CPU_DESC_DROPPED_OFFSET: usize = 56;

/// Offset of the reentrant drop counter in a CPU descriptor.
pub const CPU_DESC_REENTRANT_DROPPED_OFFSET: usize = 64;

/// Offset of the CPU flags in a CPU descriptor.
pub const CPU_DESC_FLAGS_OFFSET: usize = 72;

/// Errors returned while initializing or parsing a trace image.
#[allow(inconsistent_fields)]
#[derive(Clone, Copy, Debug, Eq, PartialEq)]
pub enum TraceImageError {
    /// The supplied image buffer is too small for the requested layout.
    ImageTooSmall,
    /// `cpu_count` was zero.
    InvalidCpuCount,
    /// The requested per-CPU ring buffer size is too small.
    BufferTooSmall,
    /// The image magic value does not match [`TRACE_IMAGE_MAGIC`].
    BadMagic {
        /// Magic value found in the image.
        found: u64,
    },
    /// The image endian marker is not supported by this parser.
    UnsupportedEndian {
        /// Endian marker found in the image.
        found: u8,
    },
    /// The container version is not supported by this parser.
    UnsupportedContainerVersion {
        /// Major version found in the image.
        found_major: u16,
        /// Minor version found in the image.
        found_minor: u16,
    },
    /// The record format version is not supported by this parser.
    UnsupportedRecordVersion {
        /// Major version found in the image.
        found_major: u16,
        /// Minor version found in the image.
        found_minor: u16,
    },
    /// The image header size is smaller than the known v1 header prefix.
    InvalidHeaderSize,
    /// The CPU descriptor size is smaller than the known v1 descriptor prefix.
    InvalidCpuDescriptorSize,
    /// A descriptor points outside the trace image.
    BufferOutOfRange,
    /// A RAM dump address calculation does not fit inside the supplied RAM bytes.
    RamRangeOutOfBounds,
    /// The requested trace base is below the RAM base.
    TraceBaseBeforeRamBase,
}

/// The fields of an image header.
pub ghost struct ImageHeader {
    /// Magic value.
    pub magic: u64,
    /// Major version of the container.
    pub container_major: u16,
    /// Minor version of the container.
    pub container_minor: u16,
    /// Size of the header.
    pub header_size: u16,
    /// Endian marker.
    pub endian: u8,
    /// Major version of the record format.
    pub record_major: u16,
    /// Minor version of the record format.
    pub record_minor: u16,
    /// Size of a record header.
    pub record_header_size: u16,
    /// Alignment of records.
    pub record_align: u16,
    /// Number of CPU descriptors.
    pub cpu_count: u32,
    /// Offset of the descriptor table.
    pub desc_offset: u64,
    /// Size of one descriptor.
    pub desc_size: u16,
    /// Offset of the first ring buffer.
    pub ring_offset: u64,
    /// Size of the image.
    pub image_size: u64,
    /// Image flags; the lowest bit is set while the image is written.
    pub flags: u64,
    /// Overflow policy: 0 is `Overwrite`, 1 is `StopOnFull`.
    pub buffer_mode: u32,
}

/// The header at the start of `b`.
pub open spec fn image_header(b: Seq<u8>) -> ImageHeader {
    ImageHeader {
        magic: bytes::u64_at(b, 0),
        container_major: bytes::u16_at(b, 8),
        container_minor: bytes::u16_at(b, 10),
        header_size: bytes::u16_at(b, 12),
        endian: b[14],
        record_major: bytes::u16_at(b, 16),
        record_minor: bytes::u16_at(b, 18),
        record_header_size: bytes::u16_at(b, 20),
        record_align: bytes::u16_at(b, 22),
        cpu_count: bytes::u32_at(b, 24),
        desc_offset: bytes::u64_at(b, 32),
        desc_size: bytes::u16_at(b, 40),
        ring_offset: bytes::u64_at(b, 48),
        image_size: bytes::u64_at(b, 56),
        flags: bytes::u64_at(b, 64),
        buffer_mode: bytes::u32_at(b, 72),
    }
}

/// Byte `i` of an image is part of a header field.
pub open spec fn in_header_field(i: int) -> bool {
    0 <= i < 15 || 16 <= i < 28 || 32 <= i < 42 || 48 <= i < 76
}

/// The number stored for a buffer mode.
pub open spec fn mode_code(mode: BufferMode) -> u32 {
    match mode {
        BufferMode::Overwrite => 0,
        BufferMode::StopOnFull => 1,
    }
}

/// The header of an image that this version of the library writes.
pub open spec fn written_header(
    cpu_count: usize,
    desc_offset: usize,
    ring_offset: usize,
    image_size: usize,
    mode: BufferMode,
    flags: u64,
) -> ImageHeader {
    ImageHeader {
        magic: TRACE_IMAGE_MAGIC,
        container_major: TRACE_IMAGE_CONTAINER_VERSION_MAJOR,
        container_minor: TRACE_IMAGE_CONTAINER_VERSION_MINOR,
        header_size: 96,
        endian: TRACE_IMAGE_ENDIAN_LITTLE,
        record_major: TRACE_RECORD_FORMAT_VERSION_MAJOR,
        record_minor: TRACE_RECORD_FORMAT_VERSION_MINOR,
        record_header_size: 16,
        record_align: 8,
        cpu_count: cpu_count as u32,
        desc_offset: desc_offset as u64,
        desc_size: 80,
        ring_offset: ring_offset as u64,
        image_size: image_size as u64,
        flags,
        buffer_mode: mode_code(mode),
    }
}

/// The error that a header is refused with, if it is: the checks apply in this
/// order.
pub open spec fn header_error(b: Seq<u8>) -> Option<TraceImageError> {
    let header = image_header(b);
    let bad_record_version = TraceImageError::UnsupportedRecordVersion {
        found_major: header.record_major,
        found_minor: header.record_minor,
    };
    if b.len() < TRACE_IMAGE_HEADER_SIZE {
        Some(TraceImageError::ImageTooSmall)
    } else if header.magic != TRACE_IMAGE_MAGIC {
        Some(TraceImageError::BadMagic { found: header.magic })
    } else if header.endian != TRACE_IMAGE_ENDIAN_LITTLE {
        Some(TraceImageError::UnsupportedEndian { found: header.endian })
    } else if header.container_major != TRACE_IMAGE_CONTAINER_VERSION_MAJOR {
        Some(
            TraceImageError::UnsupportedContainerVersion {
                found_major: header.container_major,
                found_minor: header.container_minor,
            },
        )
    } else if header.header_size < TRACE_IMAGE_HEADER_SIZE {
        Some(TraceImageError::InvalidHeaderSize)
    } else if header.record_major != TRACE_RECORD_FORMAT_VERSION_MAJOR {
        Some(bad_record_version)
    } else if header.record_header_size != RECORD_HEADER_SIZE {
        Some(bad_record_version)
    } else if header.record_align != RECORD_ALIGN {
        Some(bad_record_version)
    } else if header.desc_size < TRACE_IMAGE_CPU_DESC_SIZE {
        Some(TraceImageError::InvalidCpuDescriptorSize)
    } else {
        None
    }
}

/// Writes the image header.
pub fn write_image_header(
    bytes: &mut [u8],
    cpu_count: usize,
    desc_offset: usize,
    ring_offset: usize,
    image_size: usize,
    mode: BufferMode,
    active: bool,
)
    requires
        old(bytes)@.len() >= TRACE_IMAGE_HEADER_SIZE,
    ensures
        final(bytes)@.len() == old(bytes)@.len(),
        image_header(final(bytes)@) == written_header(
            cpu_count,
            desc_offset,
            ring_offset,
            image_size,
            mode,
            if active {
                TRACE_IMAGE_FLAG_ACTIVE
            } else {
                0
            },
        ),
        forall|i: int|
            0 <= i < final(bytes)@.len() && !in_header_field(i) ==> #[trigger] final(bytes)@[i]
                == old(bytes)@[i],
{
    broadcast use bytes::lemma_le_bytes_len;

    write_u64_at(bytes, TRACE_IMAGE_MAGIC_OFFSET, TRACE_IMAGE_MAGIC);
    write_u16_at(
        bytes,
        TRACE_IMAGE_CONTAINER_MAJOR_OFFSET,
        TRACE_IMAGE_CONTAINER_VERSION_MAJOR,
    );
    write_u16_at(
        bytes,
        TRACE_IMAGE_CONTAINER_MINOR_OFFSET,
        TRACE_IMAGE_CONTAINER_VERSION_MINOR,
    );
    write_u16_at(bytes, TRACE_IMAGE_HEADER_SIZE_OFFSET, TRACE_IMAGE_HEADER_SIZE as u16);
    bytes[TRACE_IMAGE_ENDIAN_OFFSET] = TRACE_IMAGE_ENDIAN_LITTLE;
    write_u16_at(bytes, TRACE_IMAGE_RECORD_MAJOR_OFFSET, TRACE_RECORD_FORMAT_VERSION_MAJOR);
    write_u16_at(bytes, TRACE_IMAGE_RECORD_MINOR_OFFSET, TRACE_RECORD_FORMAT_VERSION_MINOR);
    write_u16_at(bytes, TRACE_IMAGE_RECORD_HEADER_SIZE_OFFSET, RECORD_HEADER_SIZE as u16);
    write_u16_at(bytes, TRACE_IMAGE_RECORD_ALIGN_OFFSET, RECORD_ALIGN as u16);
    #[verifier::truncate]
    let count = cpu_count as u32;
    write_u32_at(bytes, TRACE_IMAGE_CPU_COUNT_OFFSET, count);
    write_u64_at(bytes, TRACE_IMAGE_CPU_DESC_OFFSET_OFFSET, desc_offset as u64);
    write_u16_at(bytes, TRACE_IMAGE_CPU_DESC_SIZE_OFFSET, TRACE_IMAGE_CPU_DESC_SIZE as u16);
    write_u64_at(bytes, TRACE_IMAGE_RING_OFFSET_OFFSET, ring_offset as u64);
    write_u64_at(bytes, TRACE_IMAGE_IMAGE_SIZE_OFFSET, image_size as u64);
    let flags: u64 = if active {
        TRACE_IMAGE_FLAG_ACTIVE
    } else {
        0
    };
    write_u64_at(bytes, TRACE_IMAGE_FLAGS_OFFSET, flags);
    let code: u32 = match mode {
        BufferMode::Overwrite => 0,
        BufferMode::StopOnFull => 1,
    };
    write_u32_at(bytes, TRACE_IMAGE_BUFFER_MODE_OFFSET, code);
    proof {
        let b = bytes@;
        bytes::lemma_int_round_trip();
        assert(b.subrange(0, 8) =~= bytes::le_bytes(TRACE_IMAGE_MAGIC as nat, 8));
        assert(b.subrange(8, 10) =~= bytes::le_bytes(1, 2));
        assert(b.subrange(10, 12) =~= bytes::le_bytes(0, 2));
        assert(b.subrange(12, 14) =~= bytes::le_bytes(96, 2));
        assert(b.subrange(16, 18) =~= bytes::le_bytes(1, 2));
        assert(b.subrange(18, 20) =~= bytes::le_bytes(0, 2));
        assert(b.subrange(20, 22) =~= bytes::le_bytes(16, 2));
        assert(b.subrange(22, 24) =~= bytes::le_bytes(8, 2));
        assert(b.subrange(24, 28) =~= bytes::le_bytes(count as nat, 4));
        assert(b.subrange(32, 40) =~= bytes::le_bytes(desc_offset as nat, 8));
        assert(b.subrange(40, 42) =~= bytes::le_bytes(80, 2));
        assert(b.subrange(48, 56) =~= bytes::le_bytes(ring_offset as nat, 8));
        assert(b.subrange(56, 64) =~= bytes::le_bytes(image_size as nat, 8));
        assert(b.subrange(64, 72) =~= bytes::le_bytes(flags as nat, 8));
        assert(b.subrange(72, 76) =~= bytes::le_bytes(code as nat, 4));
        assert(b[14] == TRACE_IMAGE_ENDIAN_LITTLE);
    }
}

/// Checks that an image has a header that this library can read.
pub fn validate_image_header(bytes: &[u8]) -> (result: Result<(), TraceImageError>)
    ensures
        match (result, header_error(bytes@)) {
            (Ok(()), None) => true,
            (Err(error), Some(expected)) => error == expected,
            _ => false,
        },
{
    if bytes.len() < TRACE_IMAGE_HEADER_SIZE {
        return Err(TraceImageError::ImageTooSmall);
    }
    let magic = read_u64_at(bytes, TRACE_IMAGE_MAGIC_OFFSET);
    if magic != TRACE_IMAGE_MAGIC {
        return Err(TraceImageError::BadMagic { found: magic });
    }
    let endian = bytes[TRACE_IMAGE_ENDIAN_OFFSET];
    if endian != TRACE_IMAGE_ENDIAN_LITTLE {
        return Err(TraceImageError::UnsupportedEndian { found: endian });
    }
    let container_major = read_u16_at(bytes, TRACE_IMAGE_CONTAINER_MAJOR_OFFSET);
    let container_minor = read_u16_at(bytes, TRACE_IMAGE_CONTAINER_MINOR_OFFSET);
    if container_major != TRACE_IMAGE_CONTAINER_VERSION_MAJOR {
        return Err(
            TraceImageError::UnsupportedContainerVersion {
                found_major: container_major,
                found_minor: container_minor,
            },
        );
    }
    let header_size = read_u16_at(bytes, TRACE_IMAGE_HEADER_SIZE_OFFSET) as usize;
    if header_size < TRACE_IMAGE_HEADER_SIZE {
        return Err(TraceImageError::InvalidHeaderSize);
    }
    let record_major = read_u16_at(bytes, TRACE_IMAGE_RECORD_MAJOR_OFFSET);
    let record_minor = read_u16_at(bytes, TRACE_IMAGE_RECORD_MINOR_OFFSET);
    let bad_record_version = TraceImageError::UnsupportedRecordVersion {
        found_major: record_major,
        found_minor: record_minor,
    };
    if record_major != TRACE_RECORD_FORMAT_VERSION_MAJOR {
        return Err(bad_record_version);
    }
    if read_u16_at(bytes, TRACE_IMAGE_RECORD_HEADER_SIZE_OFFSET) as usize != RECORD_HEADER_SIZE {
        return Err(bad_record_version);
    }
    if read_u16_at(bytes, TRACE_IMAGE_RECORD_ALIGN_OFFSET) as usize != RECORD_ALIGN {
        return Err(bad_record_version);
    }
    let desc_size = read_u16_at(bytes, TRACE_IMAGE_CPU_DESC_SIZE_OFFSET) as usize;
    if desc_size < TRACE_IMAGE_CPU_DESC_SIZE {
        return Err(TraceImageError::InvalidCpuDescriptorSize);
    }
    Ok(())
}

/// What a CPU descriptor says.
#[derive(Clone, Copy, Debug, Eq, PartialEq)]
pub struct CpuImageDescriptor {
    /// CPU that the descriptor is for.
    pub cpu_id: u32,
    /// Offset of the CPU's ring buffer in the image.
    pub buffer_offset: usize,
    /// Size of the CPU's ring buffer.
    pub buffer_size: usize,
    /// Cursors and counters of the CPU.
    pub state: CpuState,
}

/// What the eighty bytes of a descriptor say.
pub open spec fn descriptor_of(s: Seq<u8>) -> CpuImageDescriptor {
    CpuImageDescriptor {
        cpu_id: bytes::u32_at(s, 0),
        buffer_offset: bytes::u64_at(s, 8) as usize,
        buffer_size: bytes::u64_at(s, 16) as usize,
        state: CpuState {
            write_pos: bytes::u64_at(s, 24) as usize,
            read_pos: bytes::u64_at(s, 32) as usize,
            used: bytes::u64_at(s, 40) as usize,
            per_cpu_seq: bytes::u64_at(s, 48),
            dropped: bytes::u64_at(s, 56),
            reentrant_dropped: bytes::u64_at(s, 64),
            writer_active: bytes::u64_at(s, 72) % 2 == 1,
        },
    }
}

/// The descriptor at `offset` of an image.
pub open spec fn descriptor_at(b: Seq<u8>, offset: int) -> CpuImageDescriptor {
    descriptor_of(b.subrange(offset, offset + TRACE_IMAGE_CPU_DESC_SIZE))
}

/// The CPU whose descriptor is at `offset` of an image.
pub open spec fn cpu_at(b: Seq<u8>, offset: int) -> CpuRing {
    let desc = descriptor_at(b, offset);
    CpuRing {
        state: desc.state,
        ring: b.subrange(
            desc.buffer_offset as int,
            desc.buffer_offset + desc.buffer_size,
        ),
    }
}

/// The descriptor at `offset` of an image stores the fields of `desc`, each in
/// all of its bytes.
pub open spec fn descriptor_stored(b: Seq<u8>, offset: int, desc: CpuImageDescriptor) -> bool {
    &&& bytes::u32_at(b, offset) == desc.cpu_id
    &&& bytes::u64_at(b, offset + 8) == desc.buffer_offset
    &&& bytes::u64_at(b, offset + 16) == desc.buffer_size
    &&& bytes::u64_at(b, offset + 24) == desc.state.write_pos
    &&& bytes::u64_at(b, offset + 32) == desc.state.read_pos
    &&& bytes::u64_at(b, offset + 40) == desc.state.used
    &&& bytes::u64_at(b, offset + 48) == desc.state.per_cpu_seq
    &&& bytes::u64_at(b, offset + 56) == desc.state.dropped
    &&& bytes::u64_at(b, offset + 64) == desc.state.reentrant_dropped
    &&& bytes::u64_at(b, offset + 72) == (if desc.state.writer_active {
        1u64
    } else {
        0u64
    })
}

/// A descriptor is read where it stands in an image.
pub proof fn lemma_descriptor_fields(b: Seq<u8>, offset: int)
    requires
        0 <= offset,
        offset + TRACE_IMAGE_CPU_DESC_SIZE <= b.len(),
    ensures
        descriptor_at(b, offset) == (CpuImageDescriptor {
            cpu_id: bytes::u32_at(b, offset),
            buffer_offset: bytes::u64_at(b, offset + 8) as usize,
            buffer_size: bytes::u64_at(b, offset + 16) as usize,
            state: CpuState {
                write_pos: bytes::u64_at(b, offset + 24) as usize,
                read_pos: bytes::u64_at(b, offset + 32) as usize,
                used: bytes::u64_at(b, offset + 40) as usize,
                per_cpu_seq: bytes::u64_at(b, offset + 48),
                dropped: bytes::u64_at(b, offset + 56),
                reentrant_dropped: bytes::u64_at(b, offset + 64),
                writer_active: bytes::u64_at(b, offset + 72) % 2 == 1,
            },
        }),
{
    let s = b.subrange(offset, offset + TRACE_IMAGE_CPU_DESC_SIZE);
    assert(s.subrange(0, 4) =~= b.subrange(offset, offset + 4));
    assert(s.subrange(8, 16) =~= b.subrange(offset + 8, offset + 16));
    assert(s.subrange(16, 24) =~= b.subrange(offset + 16, offset + 24));
    assert(s.subrange(24, 32) =~= b.subrange(offset + 24, offset + 32));
    assert(s.subrange(32, 40) =~= b.subrange(offset + 32, offset + 40));
    assert(s.subrange(40, 48) =~= b.subrange(offset + 40, offset + 48));
    assert(s.subrange(48, 56) =~= b.subrange(offset + 48, offset + 56));
    assert(s.subrange(56, 64) =~= b.subrange(offset + 56, offset + 64));
    assert(s.subrange(64, 72) =~= b.subrange(offset + 64, offset + 72));
    assert(s.subrange(72, 80) =~= b.subrange(offset + 72, offset + 80));
}

/// The descriptor of a CPU in the table at `desc_offset`, whose entries have the
/// size that the header declares; `None` if that size is too small or the
/// descriptor is not inside the image.
pub open spec fn table_descriptor(b: Seq<u8>, desc_offset: int, cpu: int) -> Option<
    CpuImageDescriptor,
> {
    let size = bytes::u16_at(b, 40) as int;
    let offset = desc_offset + cpu * size;
    if size < TRACE_IMAGE_CPU_DESC_SIZE || offset + TRACE_IMAGE_CPU_DESC_SIZE > b.len() {
        None
    } else {
        Some(descriptor_at(b, offset))
    }
}

/// Writes the descriptor of a CPU into the table at `desc_offset`.
#[verifier::rlimit(50)]
#[verifier::spinoff_prover]
pub fn write_cpu_descriptor(
    bytes: &mut [u8],
    desc_offset: usize,
    cpu: usize,
    desc: &CpuImageDescriptor,
)
    requires
        desc_offset + cpu * TRACE_IMAGE_CPU_DESC_SIZE + TRACE_IMAGE_CPU_DESC_SIZE <= old(
            bytes,
        )@.len(),
    ensures
        final(bytes)@.len() == old(bytes)@.len(),
        ({
            let offset = desc_offset + cpu * TRACE_IMAGE_CPU_DESC_SIZE;
            &&& descriptor_stored(final(bytes)@, offset, *desc)
            &&& descriptor_at(final(bytes)@, offset) == *desc
            &&& forall|i: int|
                0 <= i < final(bytes)@.len() && !(offset <= i < offset + 4 || offset + 8 <= i
                    < offset + TRACE_IMAGE_CPU_DESC_SIZE) ==> #[trigger] final(bytes)@[i] == old(
                    bytes,
                )@[i]
        }),
    opens_invariants none
    no_unwind
{
    broadcast use bytes::lemma_le_bytes_len;

    assert(desc_offset + cpu * TRACE_IMAGE_CPU_DESC_SIZE <= bytes.len());
    let offset: usize = desc_offset + cpu * TRACE_IMAGE_CPU_DESC_SIZE;
    write_u32_at(bytes, offset + CPU_DESC_CPU_ID_OFFSET, desc.cpu_id);
    write_u64_at(bytes, offset + CPU_DESC_BUFFER_OFFSET_OFFSET, desc.buffer_offset as u64);
    write_u64_at(bytes, offset + CPU_DESC_BUFFER_SIZE_OFFSET, desc.buffer_size as u64);
    write_u64_at(bytes, offset + CPU_DESC_WRITE_POS_OFFSET, desc.state.write_pos as u64);
    write_u64_at(bytes, offset + CPU_DESC_READ_POS_OFFSET, desc.state.read_pos as u64);
    write_u64_at(bytes, offset + CPU_DESC_USED_OFFSET, desc.state.used as u64);
    write_u64_at(bytes, offset + CPU_DESC_NEXT_SEQ_OFFSET, desc.state.per_cpu_seq);
    write_u64_at(bytes, offset + CPU_DESC_DROPPED_OFFSET, desc.state.dropped);
    write_u64_at(bytes, offset + CPU_DESC_REENTRANT_DROPPED_OFFSET, desc.state.reentrant_dropped);
    let flags: u64 = if desc.state.writer_active {
        TRACE_IMAGE_CPU_FLAG_WRITER_ACTIVE
    } else {
        0
    };
    write_u64_at(bytes, offset + CPU_DESC_FLAGS_OFFSET, flags);
    proof {
        let b = bytes@;
        let o = offset as int;
        bytes::lemma_int_round_trip();
        assert(b.subrange(o, o + 4) =~= bytes::le_bytes(desc.cpu_id as nat, 4));
        assert(b.subrange(o + 8, o + 16) =~= bytes::le_bytes(desc.buffer_offset as nat, 8));
        assert(b.subrange(o + 16, o + 24) =~= bytes::le_bytes(desc.buffer_size as nat, 8));
        assert(b.subrange(o + 24, o + 32) =~= bytes::le_bytes(desc.state.write_pos as nat, 8));
        assert(b.subrange(o + 32, o + 40) =~= bytes::le_bytes(desc.state.read_pos as nat, 8));
        assert(b.subrange(o + 40, o + 48) =~= bytes::le_bytes(desc.state.used as nat, 8));
        assert(b.subrange(o + 48, o + 56) =~= bytes::le_bytes(desc.state.per_cpu_seq as nat, 8));
        assert(b.subrange(o + 56, o + 64) =~= bytes::le_bytes(desc.state.dropped as nat, 8));
        assert(b.subrange(o + 64, o + 72) =~= bytes::le_bytes(
            desc.state.reentrant_dropped as nat,
            8,
        ));
        assert(b.subrange(o + 72, o + 80) =~= bytes::le_bytes(flags as nat, 8));
        lemma_descriptor_fields(b, o);
    }
}

/// Where the descriptor of a CPU stands, if it is inside the image.
pub fn descriptor_position(bytes: &[u8], desc_offset: usize, cpu: usize) -> (offset: Option<usize>)
    requires
        bytes@.len() >= 42,
    ensures
        match offset {
            Some(offset) => {
                &&& bytes::u16_at(bytes@, 40) >= TRACE_IMAGE_CPU_DESC_SIZE
                &&& offset == desc_offset + cpu * bytes::u16_at(bytes@, 40)
                &&& offset + TRACE_IMAGE_CPU_DESC_SIZE <= bytes@.len()
            },
            None => table_descriptor(bytes@, desc_offset as int, cpu as int) is None,
        },
{
    let size: usize = bytes.len();
    let desc_size = read_u16_at(bytes, TRACE_IMAGE_CPU_DESC_SIZE_OFFSET) as usize;
    if desc_size < TRACE_IMAGE_CPU_DESC_SIZE {
        return None;
    }
    let table: usize = cpu.checked_mul(desc_size)?;
    let offset: usize = desc_offset.checked_add(table)?;
    if offset.checked_add(TRACE_IMAGE_CPU_DESC_SIZE)? > size {
        return None;
    }
    Some(offset)
}

/// Reads the descriptor of a CPU from the table at `desc_offset`.
pub fn read_cpu_descriptor(bytes: &[u8], desc_offset: usize, cpu: usize) -> (desc: Option<
    CpuImageDescriptor,
>)
    requires
        bytes@.len() >= 42,
    ensures
        desc == table_descriptor(bytes@, desc_offset as int, cpu as int),
{
    let size: usize = bytes.len();
    let offset: usize = descriptor_position(bytes, desc_offset, cpu)?;
    let s = &bytes[offset..offset + TRACE_IMAGE_CPU_DESC_SIZE];
    let flags = read_u64_at(s, CPU_DESC_FLAGS_OFFSET);
    assert(flags & 1 != 0 <==> flags % 2 == 1) by (bit_vector);
    let state = CpuState {
        write_pos: read_u64_at(s, CPU_DESC_WRITE_POS_OFFSET) as usize,
        read_pos: read_u64_at(s, CPU_DESC_READ_POS_OFFSET) as usize,
        used: read_u64_at(s, CPU_DESC_USED_OFFSET) as usize,
        per_cpu_seq: read_u64_at(s, CPU_DESC_NEXT_SEQ_OFFSET),
        dropped: read_u64_at(s, CPU_DESC_DROPPED_OFFSET),
        reentrant_dropped: read_u64_at(s, CPU_DESC_REENTRANT_DROPPED_OFFSET),
        writer_active: flags & TRACE_IMAGE_CPU_FLAG_WRITER_ACTIVE != 0,
    };
    Some(
        CpuImageDescriptor {
            cpu_id: read_u32_at(s, CPU_DESC_CPU_ID_OFFSET),
            buffer_offset: read_u64_at(s, CPU_DESC_BUFFER_OFFSET_OFFSET) as usize,
            buffer_size: read_u64_at(s, CPU_DESC_BUFFER_SIZE_OFFSET) as usize,
            state,
        },
    )
}

/// Which headers are accepted, and what each refusal means.
///
/// There must be 96 bytes. The magic value, which reads `OSTRACE` in memory, the
/// endian marker and the major version of the container must be those of the
/// library, the header no smaller than its own, the major version, the header size
/// and the alignment of records its own, and the descriptors no smaller than its
/// own. Minor versions do not matter. Each of these decides alone, in this order.
pub proof fn law_header_decides(b: Seq<u8>)
    ensures
        ({
            let error = header_error(b);
            let magic = bytes::u64_at(b, 0);
            let major = bytes::u16_at(b, 8);
            let record_major = bytes::u16_at(b, 16);
            let bad_record = TraceImageError::UnsupportedRecordVersion {
                found_major: record_major,
                found_minor: bytes::u16_at(b, 18),
            };
            if b.len() < 96 {
                error == Some(TraceImageError::ImageTooSmall)
            } else if magic != 0x0045_4341_5254_534f {
                error == Some(TraceImageError::BadMagic { found: magic })
            } else if b[14] != 1 {
                error == Some(TraceImageError::UnsupportedEndian { found: b[14] })
            } else if major != 1 {
                error == Some(
                    TraceImageError::UnsupportedContainerVersion {
                        found_major: major,
                        found_minor: bytes::u16_at(b, 10),
                    },
                )
            } else if bytes::u16_at(b, 12) < 96 {
                error == Some(TraceImageError::InvalidHeaderSize)
            } else if record_major != 1 || bytes::u16_at(b, 20) != 16 || bytes::u16_at(b, 22) != 8 {
                error == Some(bad_record)
            } else if bytes::u16_at(b, 40) < 80 {
                error == Some(TraceImageError::InvalidCpuDescriptorSize)
            } else {
                error is None
            }
        }),
{
}

/// Where the fields of a descriptor are read from, and where a descriptor stands in
/// a table whose entries have the size that the header declares.
pub proof fn law_descriptor_layout(b: Seq<u8>, table: int, cpu: int)
    requires
        0 <= table,
        0 <= cpu,
    ensures
        ({
            let stride = bytes::u16_at(b, 40) as int;
            let at = table + cpu * stride;
            let found = table_descriptor(b, table, cpu);
            &&& found is Some <==> stride >= 80 && at + 80 <= b.len()
            &&& found matches Some(desc) ==> {
                &&& desc.cpu_id == bytes::u32_at(b, at)
                &&& desc.buffer_offset == bytes::u64_at(b, at + 8) as usize
                &&& desc.buffer_size == bytes::u64_at(b, at + 16) as usize
                &&& desc.state.write_pos == bytes::u64_at(b, at + 24) as usize
                &&& desc.state.read_pos == bytes::u64_at(b, at + 32) as usize
                &&& desc.state.used == bytes::u64_at(b, at + 40) as usize
                &&& desc.state.per_cpu_seq == bytes::u64_at(b, at + 48)
                &&& desc.state.dropped == bytes::u64_at(b, at + 56)
                &&& desc.state.reentrant_dropped == bytes::u64_at(b, at + 64)
                &&& desc.state.writer_active <==> bytes::u64_at(b, at + 72) % 2 == 1
            }
        }),
{
    let stride = bytes::u16_at(b, 40) as int;
    let at = table + cpu * stride;
    assert(0 <= cpu * stride) by (nonlinear_arith)
        requires
            0 <= cpu,
            0 <= stride,
    ;
    if stride >= 80 && at + 80 <= b.len() {
        lemma_descriptor_fields(b, at);
    }
}

} // verus!
