//! Reading trace images: from live memory, from a dump of an image, and from a
//! dump of the memory around it.

use vstd::prelude::*;

use crate::bytes;
use crate::bytes::{read_u16_at, read_u32_at, read_u64_at};
use crate::layout;
use crate::layout::{
    descriptor_position, read_cpu_descriptor, validate_image_header, TraceImageError,
    CPU_DESC_BUFFER_OFFSET_OFFSET, CPU_DESC_BUFFER_SIZE_OFFSET, TRACE_IMAGE_CPU_COUNT_OFFSET,
    TRACE_IMAGE_CPU_DESC_OFFSET_OFFSET, TRACE_IMAGE_CPU_DESC_SIZE_OFFSET, TRACE_IMAGE_HEADER_SIZE,
    TRACE_IMAGE_IMAGE_SIZE_OFFSET,
};
use crate::ring::{CpuRing, CpuState};
use crate::stream::RecordIter;

verus! {

/// A CPU of an image whose descriptor table is at `desc_offset`.
pub open spec fn stream_at(b: Seq<u8>, desc_offset: int, cpu: int) -> CpuRing {
    let desc = layout::table_descriptor(b, desc_offset, cpu)->0;
    CpuRing {
        state: desc.state,
        ring: b.subrange(
            desc.buffer_offset as int,
            desc.buffer_offset + desc.buffer_size,
        ),
    }
}

/// The descriptor of a CPU is inside the image, and the ring ends before
/// `limit`.
pub open spec fn stream_fits(b: Seq<u8>, desc_offset: int, cpu: int, limit: int) -> bool {
    let offset = desc_offset + cpu * bytes::u16_at(b, 40);
    &&& layout::table_descriptor(b, desc_offset, cpu) is Some
    &&& bytes::u64_at(b, offset + 8) + bytes::u64_at(b, offset + 16) <= limit
}

/// If there are CPUs, the header and the first `count` CPUs are inside the image.
pub open spec fn readable(b: Seq<u8>, desc_offset: int, count: int) -> bool {
    &&& count > 0 ==> b.len() >= TRACE_IMAGE_HEADER_SIZE
    &&& forall|i: int|
        0 <= i < count ==> #[trigger] stream_fits(b, desc_offset, i, b.len() as int)
}

/// The error that the descriptor table is refused with, if it is: that of the
/// first CPU whose descriptor or ring is not inside the image.
pub open spec fn table_error(
    b: Seq<u8>,
    desc_offset: int,
    image_size: int,
    from: int,
    count: int,
) -> Option<TraceImageError>
    decreases count - from,
{
    if from >= count {
        None
    } else if layout::table_descriptor(b, desc_offset, from) is None {
        Some(TraceImageError::InvalidCpuDescriptorSize)
    } else if !stream_fits(b, desc_offset, from, image_size) {
        Some(TraceImageError::BufferOutOfRange)
    } else {
        table_error(b, desc_offset, image_size, from + 1, count)
    }
}

/// The error that a trace image is refused with, if it is: the checks apply in
/// this order.
pub open spec fn parse_error(b: Seq<u8>) -> Option<TraceImageError> {
    let header = layout::image_header(b);
    if layout::header_error(b) is Some {
        layout::header_error(b)
    } else if header.image_size > b.len() {
        Some(TraceImageError::ImageTooSmall)
    } else {
        table_error(
            b,
            header.desc_offset as int,
            header.image_size as int,
            0,
            header.cpu_count as int,
        )
    }
}

/// The part of a RAM dump that holds the image at the given offset: as many
/// bytes as the image header declares.
pub open spec fn image_in_ram(ram: Seq<u8>, offset: int) -> Seq<u8> {
    let header = layout::image_header(ram.subrange(offset, ram.len() as int));
    ram.subrange(offset, offset + header.image_size)
}

/// The error that a RAM dump is refused with, if it is: the checks apply in this
/// order.
pub open spec fn ram_error(ram: Seq<u8>, ram_base: u64, trace_base: u64) -> Option<
    TraceImageError,
> {
    let offset = trace_base - ram_base;
    let tail = ram.subrange(offset, ram.len() as int);
    if trace_base < ram_base {
        Some(TraceImageError::TraceBaseBeforeRamBase)
    } else if offset + TRACE_IMAGE_HEADER_SIZE > ram.len() {
        Some(TraceImageError::RamRangeOutOfBounds)
    } else if layout::header_error(tail) is Some {
        layout::header_error(tail)
    } else if offset + layout::image_header(tail).image_size > ram.len() {
        Some(TraceImageError::RamRangeOutOfBounds)
    } else {
        parse_error(image_in_ram(ram, offset))
    }
}

/// Read-only snapshot of a self-describing trace image.
pub struct TraceImageSnapshot<'a> {
    /// Full trace image bytes.
    bytes: &'a [u8],
    /// Number of active CPU descriptors.
    cpu_count: usize,
    /// Offset of the CPU descriptor table.
    desc_offset: usize,
    /// Size of each CPU descriptor in bytes.
    desc_size: usize,
}

impl<'a> TraceImageSnapshot<'a> {
    /// The bytes of the image.
    pub closed spec fn memory(self) -> Seq<u8> {
        self.bytes@
    }

    /// Number of CPU streams.
    pub closed spec fn count(self) -> usize {
        self.cpu_count
    }

    /// Offset of the descriptor table.
    pub closed spec fn table(self) -> usize {
        self.desc_offset
    }

    /// Size of each descriptor.
    pub closed spec fn descriptor_size(self) -> usize {
        self.desc_size
    }

    /// One CPU of the snapshot.
    pub open spec fn cpu(self, i: int) -> CpuRing {
        stream_at(self.memory(), self.table() as int, i)
    }

    /// Each CPU stream is inside the image.
    #[verifier::type_invariant]
    spec fn streams_fit(self) -> bool {
        readable(self.bytes@, self.desc_offset as int, self.cpu_count as int)
    }

    /// The snapshot shows the image in `b`, as its header describes it.
    pub open spec fn shows(self, b: Seq<u8>) -> bool {
        let header = layout::image_header(b);
        &&& self.memory() == b
        &&& self.count() == header.cpu_count
        &&& self.count() > 0 ==> self.table() == header.desc_offset
        &&& self.descriptor_size() == header.desc_size
    }

    /// A snapshot of the image in `bytes`.
    pub(crate) fn over(
        bytes: &'a [u8],
        cpu_count: usize,
        desc_offset: usize,
        desc_size: usize,
    ) -> (snapshot: Self)
        requires
            readable(bytes@, desc_offset as int, cpu_count as int),
        ensures
            snapshot.memory() == bytes@,
            snapshot.count() == cpu_count,
            snapshot.table() == desc_offset,
            snapshot.descriptor_size() == desc_size,
    {
        TraceImageSnapshot { bytes, cpu_count, desc_offset, desc_size }
    }

    /// Parses a trace image from a byte slice that starts at an image header.
    ///
    /// # Returns
    ///
    /// Returns a [`TraceImageSnapshot`] if the header and descriptors are
    /// supported. Returns [`TraceImageError`] when the image is not recognized or
    /// is not compatible with this parser.
    pub fn parse(bytes: &'a [u8]) -> (result: Result<Self, TraceImageError>)
        ensures
            match (result, parse_error(bytes@)) {
                (Err(error), Some(expected)) => error == expected,
                (Ok(snapshot), None) => snapshot.shows(bytes@),
                _ => false,
            },
    {
        validate_image_header(bytes)?;
        let size: usize = bytes.len();
        let cpu_count = read_u32_at(bytes, TRACE_IMAGE_CPU_COUNT_OFFSET) as usize;
        let table = read_u64_at(bytes, TRACE_IMAGE_CPU_DESC_OFFSET_OFFSET);
        let desc_offset: usize = if table > size as u64 {
            size
        } else {
            table as usize
        };
        let desc_size = read_u16_at(bytes, TRACE_IMAGE_CPU_DESC_SIZE_OFFSET) as usize;
        let declared = read_u64_at(bytes, TRACE_IMAGE_IMAGE_SIZE_OFFSET);
        if declared > size as u64 {
            return Err(TraceImageError::ImageTooSmall);
        }
        let image_size: usize = declared as usize;
        let mut cpu: usize = 0;
        while cpu < cpu_count
            invariant
                cpu <= cpu_count,
                image_size <= bytes@.len(),
                bytes@.len() >= TRACE_IMAGE_HEADER_SIZE,
                size == bytes@.len(),
                desc_offset == (if table > size {
                    size as int
                } else {
                    table as int
                }),
                cpu > 0 ==> desc_offset == table,
                forall|i: int|
                    0 <= i < cpu ==> #[trigger] stream_fits(
                        bytes@,
                        desc_offset as int,
                        i,
                        bytes@.len() as int,
                    ),
                parse_error(bytes@) == table_error(
                    bytes@,
                    table as int,
                    image_size as int,
                    cpu as int,
                    cpu_count as int,
                ),
            decreases cpu_count - cpu,
        {
            proof {
                let stride = bytes::u16_at(bytes@, 40) as int;
                assert(0 <= cpu * stride) by (nonlinear_arith)
                    requires
                        0 <= cpu,
                        0 <= stride,
                ;
            }
            let offset: usize = match descriptor_position(bytes, desc_offset, cpu) {
                Some(offset) => offset,
                None => {
                    return Err(TraceImageError::InvalidCpuDescriptorSize);
                },
            };
            let buffer_offset = read_u64_at(bytes, offset + CPU_DESC_BUFFER_OFFSET_OFFSET);
            let buffer_size = read_u64_at(bytes, offset + CPU_DESC_BUFFER_SIZE_OFFSET);
            let end: u64 = match buffer_offset.checked_add(buffer_size) {
                Some(end) => end,
                None => {
                    return Err(TraceImageError::BufferOutOfRange);
                },
            };
            if end > image_size as u64 {
                return Err(TraceImageError::BufferOutOfRange);
            }
            cpu = cpu + 1;
        }
        Ok(TraceImageSnapshot::over(bytes, cpu_count, desc_offset, desc_size))
    }

    /// Parses a trace image embedded in a RAM dump, where `ram[0]` has the
    /// physical address `ram_base`, and the image `trace_base`.
    ///
    /// # Returns
    ///
    /// Returns a [`TraceImageSnapshot`] if the address range contains a supported
    /// image. Returns [`TraceImageError::TraceBaseBeforeRamBase`] if
    /// `trace_base < ram_base`, or [`TraceImageError::RamRangeOutOfBounds`] if
    /// the image header or declared image size is outside `ram`.
    pub fn parse_from_ram(ram: &'a [u8], ram_base: u64, trace_base: u64) -> (result: Result<
        Self,
        TraceImageError,
    >)
        ensures
            match (result, ram_error(ram@, ram_base, trace_base)) {
                (Err(error), Some(expected)) => error == expected,
                (Ok(snapshot), None) => snapshot.shows(
                    image_in_ram(ram@, trace_base - ram_base),
                ),
                _ => false,
            },
    {
        let size: usize = ram.len();
        if trace_base < ram_base {
            return Err(TraceImageError::TraceBaseBeforeRamBase);
        }
        let distance: u64 = trace_base - ram_base;
        if distance > size as u64 || size - (distance as usize) < TRACE_IMAGE_HEADER_SIZE {
            return Err(TraceImageError::RamRangeOutOfBounds);
        }
        let trace_offset: usize = distance as usize;
        let bytes = &ram[trace_offset..size];
        validate_image_header(bytes)?;
        let declared = read_u64_at(bytes, TRACE_IMAGE_IMAGE_SIZE_OFFSET);
        if declared > (size - trace_offset) as u64 {
            return Err(TraceImageError::RamRangeOutOfBounds);
        }
        let image_size: usize = declared as usize;
        assert(bytes@.subrange(0, image_size as int) =~= image_in_ram(ram@, trace_offset as int));
        TraceImageSnapshot::parse(&bytes[0..image_size])
    }

    /// Returns the number of active CPU streams.
    pub fn cpu_count(&self) -> (count: usize)
        ensures
            count == self.count(),
    {
        self.cpu_count
    }

    /// Returns a read-only stream for one CPU.
    ///
    /// # Returns
    ///
    /// Returns `Some(TraceImageCpuStream)` if `cpu` is within the image CPU
    /// count; otherwise returns `None`.
    pub fn cpu_stream(&self, cpu: usize) -> (stream: Option<TraceImageCpuStream<'a>>)
        ensures
            match stream {
                Some(stream) => cpu < self.count() && stream@ == self.cpu(cpu as int),
                None => cpu >= self.count(),
            },
    {
        if cpu >= self.cpu_count {
            return None;
        }
        proof {
            use_type_invariant(self);
            assert(stream_fits(
                self.bytes@,
                self.desc_offset as int,
                cpu as int,
                self.bytes@.len() as int,
            ));
        }
        let size: usize = self.bytes.len();
        proof {
            let offset = self.desc_offset + cpu * bytes::u16_at(self.bytes@, 40);
            assert(0 <= cpu * bytes::u16_at(self.bytes@, 40)) by (nonlinear_arith);
            layout::lemma_descriptor_fields(self.bytes@, offset);
        }
        let desc = read_cpu_descriptor(self.bytes, self.desc_offset, cpu)?;
        let bytes = &self.bytes[desc.buffer_offset..desc.buffer_offset + desc.buffer_size];
        Some(TraceImageCpuStream { state: desc.state, bytes })
    }

    /// Returns the size of CPU descriptors in this image, as the image header
    /// declares it.
    pub fn cpu_descriptor_size(&self) -> (size: usize)
        ensures
            size == self.descriptor_size(),
    {
        self.desc_size
    }
}

/// Read-only stream for one CPU inside a trace image.
pub struct TraceImageCpuStream<'a> {
    /// Per-CPU state copied from the image descriptor.
    state: CpuState,
    /// Per-CPU ring buffer bytes.
    bytes: &'a [u8],
}

impl<'a> View for TraceImageCpuStream<'a> {
    type V = CpuRing;

    closed spec fn view(&self) -> CpuRing {
        CpuRing { state: self.state, ring: self.bytes@ }
    }
}

impl<'a> TraceImageCpuStream<'a> {
    /// Returns a cursor over readable non-padding records, starting at this
    /// CPU's oldest readable record.
    pub fn records(&self) -> (iter: RecordIter<'a>)
        ensures
            iter.records() == self@.records(),
    {
        RecordIter::new(self.bytes, self.state.read_pos, self.state.used)
    }
}

/// CPU `i` of the image in `b` can be read: its descriptor is inside the image, and
/// its ring ends within the declared size.
pub open spec fn cpu_can_be_read(b: Seq<u8>, i: int) -> bool {
    let at = bytes::u64_at(b, 32) + i * bytes::u16_at(b, 40);
    &&& at + 80 <= b.len()
    &&& bytes::u64_at(b, at + 8) + bytes::u64_at(b, at + 16) <= bytes::u64_at(b, 56)
}

/// The table is refused for the first CPU that cannot be read.
proof fn lemma_table_decides(b: Seq<u8>, from: int)
    requires
        layout::header_error(b) is None,
        0 <= from <= bytes::u32_at(b, 24),
    ensures
        ({
            let header = layout::image_header(b);
            let count = bytes::u32_at(b, 24) as int;
            let error = table_error(
                b,
                header.desc_offset as int,
                header.image_size as int,
                from,
                count,
            );
            &&& (forall|i: int| from <= i < count ==> #[trigger] cpu_can_be_read(b, i))
                <==> error is None
            &&& forall|i: int|
                from <= i < count && !#[trigger] cpu_can_be_read(b, i) && (forall|j: int|
                    from <= j < i ==> #[trigger] cpu_can_be_read(b, j)) ==> error == (if bytes::u64_at(
                    b,
                    32,
                ) + i * bytes::u16_at(b, 40) + 80 > b.len() {
                    Some(TraceImageError::InvalidCpuDescriptorSize)
                } else {
                    Some(TraceImageError::BufferOutOfRange)
                })
        }),
    decreases bytes::u32_at(b, 24) - from,
{
    let header = layout::image_header(b);
    let count = bytes::u32_at(b, 24) as int;
    if from < count {
        layout::law_header_decides(b);
        layout::law_descriptor_layout(b, header.desc_offset as int, from);
        let error = table_error(
            b,
            header.desc_offset as int,
            header.image_size as int,
            from,
            count,
        );
        if cpu_can_be_read(b, from) {
            lemma_table_decides(b, from + 1);
            assert forall|i: int|
                from <= i < count && !#[trigger] cpu_can_be_read(b, i) && (forall|j: int|
                    from <= j < i ==> #[trigger] cpu_can_be_read(b, j)) implies error == (
            if bytes::u64_at(b, 32) + i * bytes::u16_at(b, 40) + 80 > b.len() {
                Some(TraceImageError::InvalidCpuDescriptorSize)
            } else {
                Some(TraceImageError::BufferOutOfRange)
            }) by {
                assert(i >= from + 1);
            }
        } else {
            assert(error is Some);
        }
    }
}

/// Which images are accepted, and what each refusal means.
///
/// The header must be accepted, the declared size must not exceed the bytes there
/// are, and every CPU must be readable. Where some are not, the first of them
/// decides: its descriptor is not inside the image, or its ring is not.
pub proof fn law_parse_decides(b: Seq<u8>)
    ensures
        ({
            let error = parse_error(b);
            let count = bytes::u32_at(b, 24) as int;
            if layout::header_error(b) is Some {
                error == layout::header_error(b)
            } else if bytes::u64_at(b, 56) > b.len() {
                error == Some(TraceImageError::ImageTooSmall)
            } else {
                &&& error is None <==> (forall|i: int|
                    0 <= i < count ==> #[trigger] cpu_can_be_read(b, i))
                &&& forall|i: int|
                    0 <= i < count && !#[trigger] cpu_can_be_read(b, i) && (forall|j: int|
                        0 <= j < i ==> #[trigger] cpu_can_be_read(b, j)) ==> error == (
                    if bytes::u64_at(b, 32) + i * bytes::u16_at(b, 40) + 80 > b.len() {
                        Some(TraceImageError::InvalidCpuDescriptorSize)
                    } else {
                        Some(TraceImageError::BufferOutOfRange)
                    })
            }
        }),
{
    if layout::header_error(b) is None {
        lemma_table_decides(b, 0);
    }
}

/// What a reader of an image takes for a CPU: the state that its descriptor gives,
/// and the bytes that its descriptor points at.
pub proof fn law_stream_is_read(b: Seq<u8>, i: int)
    requires
        parse_error(b) is None,
        0 <= i < bytes::u32_at(b, 24),
        b.len() <= usize::MAX,
    ensures
        ({
            let at = bytes::u64_at(b, 32) + i * bytes::u16_at(b, 40);
            let cpu = stream_at(b, layout::image_header(b).desc_offset as int, i);
            let start = bytes::u64_at(b, at + 8) as int;
            &&& cpu.ring == b.subrange(start, start + bytes::u64_at(b, at + 16))
            &&& cpu.state.write_pos == bytes::u64_at(b, at + 24) as usize
            &&& cpu.state.read_pos == bytes::u64_at(b, at + 32) as usize
            &&& cpu.state.used == bytes::u64_at(b, at + 40) as usize
            &&& cpu.state.per_cpu_seq == bytes::u64_at(b, at + 48)
            &&& cpu.state.dropped == bytes::u64_at(b, at + 56)
            &&& cpu.state.reentrant_dropped == bytes::u64_at(b, at + 64)
        }),
{
    law_parse_decides(b);
    layout::law_header_decides(b);
    assert(cpu_can_be_read(b, i));
    layout::law_descriptor_layout(b, layout::image_header(b).desc_offset as int, i);
}

/// Where an image is looked for in a RAM dump, and what each refusal means.
///
/// The image starts as far into the dump as its address is above that of the dump,
/// and has the size that its header declares. Its header and all of it must be
/// inside the dump.
pub proof fn law_ram_decides(ram: Seq<u8>, ram_base: u64, trace_base: u64)
    ensures
        ({
            let error = ram_error(ram, ram_base, trace_base);
            let at = trace_base - ram_base;
            let tail = ram.skip(at);
            let size = bytes::u64_at(tail, 56);
            if at < 0 {
                error == Some(TraceImageError::TraceBaseBeforeRamBase)
            } else if at + 96 > ram.len() {
                error == Some(TraceImageError::RamRangeOutOfBounds)
            } else if layout::header_error(tail) is Some {
                error == layout::header_error(tail)
            } else if at + size > ram.len() {
                error == Some(TraceImageError::RamRangeOutOfBounds)
            } else {
                &&& image_in_ram(ram, at) == ram.subrange(at, at + size)
                &&& error == parse_error(ram.subrange(at, at + size))
            }
        }),
{
    let at = trace_base - ram_base;
    if 0 <= at <= ram.len() {
        assert(ram.skip(at) =~= ram.subrange(at, ram.len() as int));
    }
}

} // verus!
