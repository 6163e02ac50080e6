//! Trace images: one caller-provided memory region that holds everything.
//!
//! A live image is written in place and can be read at any time, from the
//! region itself or from a dump of the memory around it.

use vstd::prelude::*;

use crate::append;
use crate::append::plan_event;
use crate::bytes;
use crate::bytes::{align_up, fill_zero, read_u64_at, write_u64_at};
use crate::layout;
use crate::layout::{
    read_cpu_descriptor, write_cpu_descriptor, write_image_header, CpuImageDescriptor,
    ImageHeader, TraceImageError, TRACE_IMAGE_CPU_DESC_OFFSET_OFFSET, TRACE_IMAGE_CPU_DESC_SIZE,
    TRACE_IMAGE_FLAGS_OFFSET, TRACE_IMAGE_FLAG_ACTIVE, TRACE_IMAGE_HEADER_SIZE,
};
use crate::payload::{DecodedView, EventView, PayloadWriter, TraceEvent};
use crate::platform;
use crate::platform::TracePlatform;
use crate::record::{RecordKind, RECORD_ALIGN};
use crate::ring;
use crate::ring::{
    write_placed, AppendStatus, BufferMode, CpuRing, CpuState, DropReason, Placement,
    MIN_RING_BUFFER_SIZE,
};
use crate::snapshot;
use crate::snapshot::TraceImageSnapshot;
use crate::task::{OffCpuState, TaskRef};

verus! {

/// Offset of the descriptor of CPU `i` in an image that this library wrote.
pub open spec fn descriptor_offset(i: int) -> int {
    TRACE_IMAGE_HEADER_SIZE + i * TRACE_IMAGE_CPU_DESC_SIZE
}

/// Offset of the ring of CPU `i` in an image for `count` CPUs with rings of
/// `size` bytes.
pub open spec fn ring_offset(count: int, size: int, i: int) -> int {
    descriptor_offset(count) + i * size
}

/// CPU `i` of an image that this library wrote.
pub open spec fn image_cpu(b: Seq<u8>, i: int) -> CpuRing {
    layout::cpu_at(b, descriptor_offset(i))
}

/// The descriptor of CPU `i` names the CPU and its ring, its fields are stored in
/// full, and the ring is well-formed.
pub open spec fn cpu_ok(b: Seq<u8>, count: int, size: int, i: int) -> bool {
    let desc = layout::descriptor_at(b, descriptor_offset(i));
    &&& layout::descriptor_stored(b, descriptor_offset(i), desc)
    &&& desc.cpu_id == i as u32
    &&& desc.buffer_offset == ring_offset(count, size, i)
    &&& desc.buffer_size == size
    &&& image_cpu(b, i).wf()
}

/// The invariant of an image for `count` CPUs with rings of `size` bytes.
pub open spec fn image_ok(b: Seq<u8>, count: usize, size: usize, mode: BufferMode) -> bool {
    &&& count >= 1
    &&& size >= MIN_RING_BUFFER_SIZE
    &&& ring_offset(count as int, size as int, count as int) <= b.len() <= usize::MAX
    &&& layout::image_header(b) == layout::written_header(
        count,
        TRACE_IMAGE_HEADER_SIZE,
        ring_offset(count as int, size as int, 0) as usize,
        ring_offset(count as int, size as int, count as int) as usize,
        mode,
        layout::image_header(b).flags,
    )
    &&& forall|i: int| 0 <= i < count ==> #[trigger] cpu_ok(b, count as int, size as int, i)
}

/// Byte `k` of an image is in a field of the descriptor or in the ring of CPU `i`.
pub open spec fn in_cpu(count: int, size: int, i: int, k: int) -> bool {
    let desc = descriptor_offset(i);
    let ring = ring_offset(count, size, i);
    ||| desc <= k < desc + 4
    ||| desc + 8 <= k < desc + TRACE_IMAGE_CPU_DESC_SIZE
    ||| ring <= k < ring + size
}

/// Byte `k` of an image is in a counter of CPU `i` that an append with the given
/// status changes if it is refused: the drop counters, and the next sequence
/// number unless the append was reentrant.
pub open spec fn in_counters(i: int, status: AppendStatus, k: int) -> bool {
    let desc = descriptor_offset(i);
    ||| desc + 56 <= k < desc + 72
    ||| status != AppendStatus::Dropped(DropReason::Reentrant) && desc + 48 <= k < desc + 56
}

/// Size of each ring of an image, as the first descriptor has it.
pub open spec fn ring_size(b: Seq<u8>) -> usize {
    layout::descriptor_at(b, descriptor_offset(0)).buffer_size
}

/// The rings of an image lie behind the descriptors, one behind the other.
proof fn lemma_slots(count: int, size: int, i: int)
    requires
        0 <= i < count,
        0 <= size,
    ensures
        0 <= i * size,
        i * size + size <= count * size,
        0 <= count * size,
        descriptor_offset(i) + TRACE_IMAGE_CPU_DESC_SIZE <= descriptor_offset(count),
        descriptor_offset(count) <= ring_offset(count, size, i),
        ring_offset(count, size, i) + size <= ring_offset(count, size, count),
{
    assert(0 <= i * size) by (nonlinear_arith)
        requires
            0 <= i,
            0 <= size,
    ;
    assert(i * size + size <= count * size) by (nonlinear_arith)
        requires
            0 <= i < count,
            0 <= size,
    ;
}

/// Rings of different CPUs do not overlap.
proof fn lemma_slots_disjoint(count: int, size: int, i: int, j: int)
    requires
        0 <= i < count,
        0 <= j < count,
        0 <= size,
        i != j,
    ensures
        ring_offset(count, size, i) + size <= ring_offset(count, size, j) || ring_offset(
            count,
            size,
            j,
        ) + size <= ring_offset(count, size, i),
{
    assert(i < j ==> i * size + size <= j * size) by (nonlinear_arith)
        requires
            0 <= size,
    ;
    assert(j < i ==> j * size + size <= i * size) by (nonlinear_arith)
        requires
            0 <= size,
    ;
}

/// What a descriptor stores depends on its own bytes alone.
proof fn lemma_stored_frame(a: Seq<u8>, b: Seq<u8>, offset: int)
    requires
        0 <= offset,
        offset + TRACE_IMAGE_CPU_DESC_SIZE <= a.len(),
        offset + TRACE_IMAGE_CPU_DESC_SIZE <= b.len(),
        forall|k: int|
            offset <= k < offset + TRACE_IMAGE_CPU_DESC_SIZE ==> #[trigger] a[k] == b[k],
    ensures
        forall|desc: CpuImageDescriptor|
            layout::descriptor_stored(a, offset, desc) == #[trigger] layout::descriptor_stored(
                b,
                offset,
                desc,
            ),
{
    assert(a.subrange(offset, offset + 4) =~= b.subrange(offset, offset + 4));
    assert(a.subrange(offset + 8, offset + 16) =~= b.subrange(offset + 8, offset + 16));
    assert(a.subrange(offset + 16, offset + 24) =~= b.subrange(offset + 16, offset + 24));
    assert(a.subrange(offset + 24, offset + 32) =~= b.subrange(offset + 24, offset + 32));
    assert(a.subrange(offset + 32, offset + 40) =~= b.subrange(offset + 32, offset + 40));
    assert(a.subrange(offset + 40, offset + 48) =~= b.subrange(offset + 40, offset + 48));
    assert(a.subrange(offset + 48, offset + 56) =~= b.subrange(offset + 48, offset + 56));
    assert(a.subrange(offset + 56, offset + 64) =~= b.subrange(offset + 56, offset + 64));
    assert(a.subrange(offset + 64, offset + 72) =~= b.subrange(offset + 64, offset + 72));
    assert(a.subrange(offset + 72, offset + 80) =~= b.subrange(offset + 72, offset + 80));
}

/// A CPU depends on its descriptor and its ring alone.
proof fn lemma_cpu_frame(a: Seq<u8>, b: Seq<u8>, offset: int)
    requires
        0 <= offset,
        offset + TRACE_IMAGE_CPU_DESC_SIZE <= a.len(),
        offset + TRACE_IMAGE_CPU_DESC_SIZE <= b.len(),
        forall|k: int|
            offset <= k < offset + TRACE_IMAGE_CPU_DESC_SIZE ==> #[trigger] a[k] == b[k],
        ({
            let desc = layout::descriptor_at(a, offset);
            &&& desc.buffer_offset + desc.buffer_size <= a.len()
            &&& desc.buffer_offset + desc.buffer_size <= b.len()
            &&& forall|k: int|
                desc.buffer_offset <= k < desc.buffer_offset + desc.buffer_size
                    ==> #[trigger] a[k] == b[k]
        }),
    ensures
        layout::descriptor_at(b, offset) == layout::descriptor_at(a, offset),
        layout::descriptor_stored(a, offset, layout::descriptor_at(a, offset))
            ==> layout::descriptor_stored(b, offset, layout::descriptor_at(a, offset)),
        layout::cpu_at(b, offset) == layout::cpu_at(a, offset),
{
    lemma_stored_frame(a, b, offset);
    assert(a.subrange(offset, offset + TRACE_IMAGE_CPU_DESC_SIZE) =~= b.subrange(
        offset,
        offset + TRACE_IMAGE_CPU_DESC_SIZE,
    ));
    let desc = layout::descriptor_at(a, offset);
    assert(layout::cpu_at(a, offset).ring =~= layout::cpu_at(b, offset).ring);
}

/// The header depends on its own bytes alone.
proof fn lemma_header_frame(a: Seq<u8>, b: Seq<u8>)
    requires
        a.len() >= TRACE_IMAGE_HEADER_SIZE,
        b.len() >= TRACE_IMAGE_HEADER_SIZE,
        forall|k: int| 0 <= k < TRACE_IMAGE_HEADER_SIZE ==> #[trigger] a[k] == b[k],
    ensures
        layout::image_header(a) == layout::image_header(b),
{
    assert(a.subrange(0, 8) =~= b.subrange(0, 8));
    assert(a.subrange(8, 10) =~= b.subrange(8, 10));
    assert(a.subrange(10, 12) =~= b.subrange(10, 12));
    assert(a.subrange(12, 14) =~= b.subrange(12, 14));
    assert(a.subrange(16, 18) =~= b.subrange(16, 18));
    assert(a.subrange(18, 20) =~= b.subrange(18, 20));
    assert(a.subrange(20, 22) =~= b.subrange(20, 22));
    assert(a.subrange(22, 24) =~= b.subrange(22, 24));
    assert(a.subrange(24, 28) =~= b.subrange(24, 28));
    assert(a.subrange(32, 40) =~= b.subrange(32, 40));
    assert(a.subrange(40, 42) =~= b.subrange(40, 42));
    assert(a.subrange(48, 56) =~= b.subrange(48, 56));
    assert(a.subrange(56, 64) =~= b.subrange(56, 64));
    assert(a.subrange(64, 72) =~= b.subrange(64, 72));
    assert(a.subrange(72, 76) =~= b.subrange(72, 76));
}

/// Configuration used to initialize one self-describing trace image.
pub struct TraceImageConfig<'a, P> {
    /// Caller-owned RAM region that will contain the full trace image.
    pub bytes: &'a mut [u8],
    /// Number of CPUs that may write records.
    pub cpu_count: usize,
    /// Size in bytes of each per-CPU ring buffer inside `bytes`.
    pub per_cpu_buffer_size: usize,
    /// Ring buffer overflow policy.
    pub mode: BufferMode,
    /// Platform hooks used to obtain timestamps and CPU ids.
    pub platform: P,
}

/// Active trace image backed by one caller-provided RAM region.
///
/// The image owns no memory. Header fields, CPU descriptors, and per-CPU ring
/// buffers are all stored inside the supplied byte slice.
pub struct TraceImage<'a, P> {
    /// Full trace image bytes.
    bytes: &'a mut [u8],
    /// Runtime CPU count enabled for tracing.
    cpu_count: usize,
    /// Platform hooks used by append operations.
    platform: P,
    /// Ring buffer overflow policy.
    mode: BufferMode,
}

/// The error that an image configuration is refused with, if it is: the checks
/// apply in this order.
pub open spec fn init_error(len: int, cpu_count: usize, size: usize) -> Option<TraceImageError> {
    if cpu_count == 0 {
        Some(TraceImageError::InvalidCpuCount)
    } else if size < MIN_RING_BUFFER_SIZE {
        Some(TraceImageError::BufferTooSmall)
    } else if ring_offset(cpu_count as int, size as int, cpu_count as int) > len {
        Some(TraceImageError::ImageTooSmall)
    } else {
        None
    }
}

impl<'a, P> TraceImage<'a, P> {
    /// The memory holds an image for the CPUs.
    #[verifier::type_invariant]
    spec fn holds_image(self) -> bool {
        image_ok(self.bytes@, self.cpu_count, ring_size(self.bytes@), self.mode)
    }

    /// The bytes of the memory region.
    pub closed spec fn memory(self) -> Seq<u8> {
        self.bytes@
    }

    /// Number of CPUs.
    pub closed spec fn count(self) -> usize {
        self.cpu_count
    }

    /// Platform hooks.
    pub closed spec fn hooks(self) -> P {
        self.platform
    }

    /// Ring buffer overflow policy.
    pub closed spec fn buffer_mode(self) -> BufferMode {
        self.mode
    }

    /// Size of each ring.
    pub open spec fn buffer_size(self) -> usize {
        ring_size(self.memory())
    }

    /// The invariant of an image, which every image has.
    pub open spec fn wf(self) -> bool {
        image_ok(self.memory(), self.count(), self.buffer_size(), self.buffer_mode())
    }

    /// One CPU of the image.
    pub open spec fn cpu(self, i: int) -> CpuRing {
        image_cpu(self.memory(), i)
    }

    /// Byte `k` of the memory is neither in a field of the descriptor nor in the
    /// ring of CPU `i`.
    pub open spec fn apart_from(self, i: int, k: int) -> bool {
        !in_cpu(self.count() as int, self.buffer_size() as int, i, k)
    }

    /// The image `after` is this image after an append attempt on the given CPU
    /// at the given time: that CPU has the outcome of the attempt, and no byte
    /// apart from it has changed; if the event was refused, no byte apart from the
    /// counters of that CPU. A CPU outside the image has no outcome.
    pub open spec fn appended(
        self,
        after: TraceImage<'a, P>,
        cpu_id: u32,
        timestamp: u64,
        event: EventView,
        status: AppendStatus,
    ) -> bool {
        &&& after.count() == self.count()
        &&& after.hooks() == self.hooks()
        &&& after.buffer_mode() == self.buffer_mode()
        &&& after.buffer_size() == self.buffer_size()
        &&& after.memory().len() == self.memory().len()
        &&& layout::image_header(after.memory()) == layout::image_header(self.memory())
        &&& forall|i: int|
            0 <= i < self.count() && i != cpu_id ==> #[trigger] after.cpu(i) == self.cpu(i)
        &&& if cpu_id >= self.count() {
            &&& status == AppendStatus::Dropped(DropReason::InvalidCpu)
            &&& after.memory() == self.memory()
        } else {
            &&& (after.cpu(cpu_id as int), status) == append::append_outcome(
                self.cpu(cpu_id as int),
                self.buffer_mode(),
                cpu_id,
                timestamp,
                event,
            )
            &&& forall|k: int|
                0 <= k < self.memory().len() && self.apart_from(cpu_id as int, k)
                    ==> #[trigger] after.memory()[k] == self.memory()[k]
            &&& status != AppendStatus::Written ==> forall|k: int|
                0 <= k < self.memory().len() && !in_counters(cpu_id as int, status, k)
                    ==> #[trigger] after.memory()[k] == self.memory()[k]
        }
    }
}

/// The descriptor of CPU `i` is that of an empty ring.
spec fn descriptor_fresh(b: Seq<u8>, count: int, size: int, i: int) -> bool {
    &&& layout::descriptor_at(b, descriptor_offset(i)) == (CpuImageDescriptor {
        cpu_id: i as u32,
        buffer_offset: ring_offset(count, size, i) as usize,
        buffer_size: size as usize,
        state: CpuState::fresh(),
    })
    &&& layout::descriptor_stored(
        b,
        descriptor_offset(i),
        layout::descriptor_at(b, descriptor_offset(i)),
    )
}

/// Writes the descriptors of empty rings.
fn write_descriptors(bytes: &mut [u8], cpu_count: usize, ring_start: usize, size: usize)
    requires
        ring_start == descriptor_offset(cpu_count as int),
        ring_offset(cpu_count as int, size as int, cpu_count as int) <= old(bytes)@.len(),
    ensures
        final(bytes)@.len() == old(bytes)@.len(),
        forall|i: int|
            0 <= i < cpu_count ==> #[trigger] descriptor_fresh(
                final(bytes)@,
                cpu_count as int,
                size as int,
                i,
            ),
        forall|k: int|
            0 <= k < final(bytes)@.len() && !(TRACE_IMAGE_HEADER_SIZE <= k < ring_start)
                ==> #[trigger] final(bytes)@[k] == old(bytes)@[k],
        forall|i: int, k: int|
            0 <= i < cpu_count && 4 <= k < 8 ==> #[trigger] final(bytes)@[descriptor_offset(i) + k]
                == old(bytes)@[descriptor_offset(i) + k],
{
    let total: usize = bytes.len();
    let ghost start = bytes@;
    let mut cpu: usize = 0;
    while cpu < cpu_count
        invariant
            cpu <= cpu_count,
            ring_start == descriptor_offset(cpu_count as int),
            ring_offset(cpu_count as int, size as int, cpu_count as int) <= total,
            bytes@.len() == total == start.len(),
            forall|i: int|
                0 <= i < cpu ==> #[trigger] descriptor_fresh(
                    bytes@,
                    cpu_count as int,
                    size as int,
                    i,
                ),
            forall|k: int|
                0 <= k < total && !(TRACE_IMAGE_HEADER_SIZE <= k < descriptor_offset(cpu as int))
                    ==> #[trigger] bytes@[k] == start[k],
            forall|i: int, k: int|
                0 <= i < cpu && 4 <= k < 8 ==> #[trigger] bytes@[descriptor_offset(i) + k]
                    == start[descriptor_offset(i) + k],
        decreases cpu_count - cpu,
    {
        let ghost before = bytes@;
        proof {
            lemma_slots(cpu_count as int, size as int, cpu as int);
        }
        #[verifier::truncate]
        let cpu_id = cpu as u32;
        let desc = CpuImageDescriptor {
            cpu_id,
            buffer_offset: ring_start + cpu * size,
            buffer_size: size,
            state: CpuState::new(),
        };
        write_cpu_descriptor(bytes, TRACE_IMAGE_HEADER_SIZE, cpu, &desc);
        proof {
            assert forall|i: int| 0 <= i < cpu implies #[trigger] descriptor_fresh(
                bytes@,
                cpu_count as int,
                size as int,
                i,
            ) by {
                let offset = descriptor_offset(i);
                assert(descriptor_fresh(before, cpu_count as int, size as int, i));
                assert(bytes@.subrange(offset, offset + TRACE_IMAGE_CPU_DESC_SIZE)
                    =~= before.subrange(offset, offset + TRACE_IMAGE_CPU_DESC_SIZE));
                lemma_stored_frame(before, bytes@, offset);
            }
        }
        cpu = cpu + 1;
    }
}

/// An image stays well-formed, and its other CPUs stay as they are, when the ring
/// of one CPU changes to a well-formed one.
proof fn lemma_update(
    a: Seq<u8>,
    b: Seq<u8>,
    count: usize,
    size: usize,
    mode: BufferMode,
    cpu: int,
)
    requires
        image_ok(a, count, size, mode),
        0 <= cpu < count,
        b.len() == a.len(),
        cpu_ok(b, count as int, size as int, cpu),
        ({
            let desc = descriptor_offset(cpu);
            let ring = ring_offset(count as int, size as int, cpu);
            forall|k: int|
                0 <= k < a.len() && !(desc <= k < desc + TRACE_IMAGE_CPU_DESC_SIZE) && !(ring <= k
                    < ring + size) ==> #[trigger] b[k] == a[k]
        }),
    ensures
        image_ok(b, count, size, mode),
        layout::image_header(b) == layout::image_header(a),
        ring_size(b) == size,
        forall|i: int| 0 <= i < count && i != cpu ==> #[trigger] image_cpu(b, i) == image_cpu(a, i),
{
    lemma_slots(count as int, size as int, cpu);
    lemma_header_frame(b, a);
    assert forall|i: int| 0 <= i < count && i != cpu implies #[trigger] image_cpu(b, i)
        == image_cpu(a, i) && cpu_ok(b, count as int, size as int, i) by {
        assert(cpu_ok(a, count as int, size as int, i));
        lemma_slots(count as int, size as int, i);
        lemma_slots_disjoint(count as int, size as int, i, cpu);
        lemma_cpu_frame(a, b, descriptor_offset(i));
    }
    assert forall|i: int| 0 <= i < count implies #[trigger] cpu_ok(
        b,
        count as int,
        size as int,
        i,
    ) by {
        if i != cpu {
            assert(image_cpu(b, i) == image_cpu(a, i));
        }
    }
    assert(cpu_ok(b, count as int, size as int, 0));
}

/// The table of an image holds the descriptor of each CPU.
proof fn lemma_table(b: Seq<u8>, count: usize, size: usize, mode: BufferMode, i: int)
    requires
        image_ok(b, count, size, mode),
        0 <= i < count,
    ensures
        bytes::u64_at(b, 32) == TRACE_IMAGE_HEADER_SIZE,
        layout::table_descriptor(b, TRACE_IMAGE_HEADER_SIZE as int, i) == Some(
            layout::descriptor_at(b, descriptor_offset(i)),
        ),
        descriptor_offset(i) + TRACE_IMAGE_CPU_DESC_SIZE <= b.len(),
{
    lemma_slots(count as int, size as int, i);
    let header = layout::image_header(b);
    assert(header.desc_size == 80);
    assert(header.desc_offset == 96);
    let desc_size = bytes::u16_at(b, 40) as int;
    assert(i * desc_size == i * 80) by (nonlinear_arith)
        requires
            desc_size == 80,
    ;
}

/// Every CPU of an image can be read.
proof fn lemma_readable(b: Seq<u8>, count: usize, size: usize, mode: BufferMode)
    requires
        image_ok(b, count, size, mode),
    ensures
        snapshot::readable(b, TRACE_IMAGE_HEADER_SIZE as int, count as int),
        forall|i: int|
            0 <= i < count ==> #[trigger] snapshot::stream_at(
                b,
                TRACE_IMAGE_HEADER_SIZE as int,
                i,
            ) == image_cpu(b, i),
{
    assert forall|i: int| 0 <= i < count implies {
        &&& #[trigger] snapshot::stream_at(b, TRACE_IMAGE_HEADER_SIZE as int, i) == image_cpu(b, i)
        &&& snapshot::stream_fits(b, TRACE_IMAGE_HEADER_SIZE as int, i, b.len() as int)
    } by {
        assert(cpu_ok(b, count as int, size as int, i));
        lemma_slots(count as int, size as int, i);
        lemma_table(b, count, size, mode, i);
    }
    assert forall|i: int| 0 <= i < count implies #[trigger] snapshot::stream_fits(
        b,
        TRACE_IMAGE_HEADER_SIZE as int,
        i,
        b.len() as int,
    ) by {
        assert(snapshot::stream_at(b, TRACE_IMAGE_HEADER_SIZE as int, i) == image_cpu(b, i));
    }
}

/// A CPU is what its descriptor and its ring say.
proof fn lemma_written(
    a: Seq<u8>,
    b: Seq<u8>,
    count: usize,
    size: usize,
    mode: BufferMode,
    cpu: int,
    after: CpuRing,
)
    requires
        image_ok(a, count, size, mode),
        0 <= cpu < count,
        b.len() == a.len(),
        after.wf(),
        layout::descriptor_at(b, descriptor_offset(cpu)) == (CpuImageDescriptor {
            state: after.state,
            ..layout::descriptor_at(a, descriptor_offset(cpu))
        }),
        layout::descriptor_stored(
            b,
            descriptor_offset(cpu),
            layout::descriptor_at(b, descriptor_offset(cpu)),
        ),
        ({
            let desc = descriptor_offset(cpu);
            let ring = ring_offset(count as int, size as int, cpu);
            &&& b.subrange(ring, ring + size) == after.ring
            &&& forall|k: int|
                0 <= k < a.len() && !(desc <= k < desc + TRACE_IMAGE_CPU_DESC_SIZE) && !(ring <= k
                    < ring + size) ==> #[trigger] b[k] == a[k]
        }),
    ensures
        image_ok(b, count, size, mode),
        image_cpu(b, cpu) == after,
        layout::image_header(b) == layout::image_header(a),
        ring_size(b) == size,
        forall|i: int| 0 <= i < count && i != cpu ==> #[trigger] image_cpu(b, i) == image_cpu(a, i),
{
    assert(cpu_ok(a, count as int, size as int, cpu));
    assert(image_cpu(b, cpu) == after);
    assert(cpu_ok(b, count as int, size as int, cpu));
    lemma_update(a, b, count, size, mode, cpu);
}

/// Numbers that read the same are stored in the same bytes.
proof fn lemma_same_u64(a: Seq<u8>, b: Seq<u8>, at: int)
    requires
        0 <= at,
        at + 8 <= a.len(),
        at + 8 <= b.len(),
        bytes::u64_at(a, at) == bytes::u64_at(b, at),
    ensures
        forall|k: int| at <= k < at + 8 ==> #[trigger] a[k] == b[k],
{
    let x = a.subrange(at, at + 8);
    let y = b.subrange(at, at + 8);
    bytes::lemma_pow256_widths();
    bytes::lemma_le_value_bound(x);
    bytes::lemma_le_value_bound(y);
    bytes::lemma_le_bytes_of_value(x);
    bytes::lemma_le_bytes_of_value(y);
    assert forall|k: int| at <= k < at + 8 implies #[trigger] a[k] == b[k] by {
        assert(x[k - at] == y[k - at]);
    }
}

/// A descriptor in which just counters changed has the bytes it had elsewhere.
proof fn lemma_counters_changed(
    a: Seq<u8>,
    b: Seq<u8>,
    offset: int,
    from: CpuImageDescriptor,
    to: CpuImageDescriptor,
)
    requires
        0 <= offset,
        offset + TRACE_IMAGE_CPU_DESC_SIZE <= a.len(),
        a.len() == b.len(),
        layout::descriptor_stored(a, offset, from),
        layout::descriptor_stored(b, offset, to),
        to == (CpuImageDescriptor {
            state: CpuState {
                per_cpu_seq: to.state.per_cpu_seq,
                dropped: to.state.dropped,
                reentrant_dropped: to.state.reentrant_dropped,
                ..from.state
            },
            ..from
        }),
        forall|k: int|
            0 <= k < a.len() && !(offset <= k < offset + 4 || offset + 8 <= k < offset
                + TRACE_IMAGE_CPU_DESC_SIZE) ==> #[trigger] b[k] == a[k],
    ensures
        forall|k: int|
            0 <= k < a.len() && !(offset + 48 <= k < offset + 72) ==> #[trigger] b[k] == a[k],
        to.state.per_cpu_seq == from.state.per_cpu_seq ==> forall|k: int|
            offset + 48 <= k < offset + 56 ==> #[trigger] b[k] == a[k],
{
    let x = a.subrange(offset, offset + 4);
    let y = b.subrange(offset, offset + 4);
    bytes::lemma_pow256_widths();
    bytes::lemma_le_value_bound(x);
    bytes::lemma_le_value_bound(y);
    bytes::lemma_le_bytes_of_value(x);
    bytes::lemma_le_bytes_of_value(y);
    assert forall|k: int| offset <= k < offset + 4 implies #[trigger] b[k] == a[k] by {
        assert(x[k - offset] == y[k - offset]);
    }
    lemma_same_u64(b, a, offset + 8);
    lemma_same_u64(b, a, offset + 16);
    lemma_same_u64(b, a, offset + 24);
    lemma_same_u64(b, a, offset + 32);
    lemma_same_u64(b, a, offset + 40);
    lemma_same_u64(b, a, offset + 72);
    if to.state.per_cpu_seq == from.state.per_cpu_seq {
        lemma_same_u64(b, a, offset + 48);
    }
}

/// The image `b` is the image `a` with another CPU `i`: every other CPU, the
/// header and all bytes that are not of CPU `i` are as they were.
spec fn cpu_set(
    a: Seq<u8>,
    b: Seq<u8>,
    count: usize,
    mode: BufferMode,
    i: int,
    cpu: CpuRing,
) -> bool {
    let size = ring_size(a);
    &&& b.len() == a.len()
    &&& image_ok(b, count, size, mode)
    &&& ring_size(b) == size
    &&& layout::image_header(b) == layout::image_header(a)
    &&& image_cpu(b, i) == cpu
    &&& forall|j: int| 0 <= j < count && j != i ==> #[trigger] image_cpu(b, j) == image_cpu(a, j)
    &&& forall|k: int|
        0 <= k < a.len() && !in_cpu(count as int, size as int, i, k) ==> #[trigger] b[k] == a[k]
}

/// Stores another state of a CPU in its descriptor.
fn store_state(
    bytes: &mut [u8],
    Ghost(count): Ghost<usize>,
    Ghost(mode): Ghost<BufferMode>,
    desc_offset: usize,
    cpu: usize,
    desc: &CpuImageDescriptor,
)
    requires
        image_ok(old(bytes)@, count, ring_size(old(bytes)@), mode),
        desc_offset == TRACE_IMAGE_HEADER_SIZE,
        cpu < count,
        *desc == (CpuImageDescriptor {
            state: desc.state,
            ..layout::descriptor_at(old(bytes)@, descriptor_offset(cpu as int))
        }),
        (CpuRing { state: desc.state, ring: image_cpu(old(bytes)@, cpu as int).ring }).wf(),
    ensures
        cpu_set(
            old(bytes)@,
            final(bytes)@,
            count,
            mode,
            cpu as int,
            CpuRing { state: desc.state, ring: image_cpu(old(bytes)@, cpu as int).ring },
        ),
        layout::descriptor_at(final(bytes)@, descriptor_offset(cpu as int)) == *desc,
        layout::descriptor_stored(final(bytes)@, descriptor_offset(cpu as int), *desc),
        ({
            let offset = descriptor_offset(cpu as int);
            forall|k: int|
                0 <= k < old(bytes)@.len() && !(offset <= k < offset + 4 || offset + 8 <= k < offset
                    + TRACE_IMAGE_CPU_DESC_SIZE) ==> #[trigger] final(bytes)@[k] == old(bytes)@[k]
        }),
    opens_invariants none
    no_unwind
{
    let ghost before = bytes@;
    let ghost size = ring_size(before);
    let ghost after = CpuRing { state: desc.state, ring: image_cpu(before, cpu as int).ring };
    proof {
        lemma_slots(count as int, size as int, cpu as int);
        assert(cpu_ok(before, count as int, size as int, cpu as int));
    }
    write_cpu_descriptor(bytes, desc_offset, cpu, desc);
    proof {
        let ring = ring_offset(count as int, size as int, cpu as int);
        assert(bytes@.subrange(ring, ring + size) =~= after.ring);
        lemma_written(before, bytes@, count, size, mode, cpu as int, after);
    }
}

/// Writes a record that was placed in the ring of a CPU, and stores the state of
/// the CPU behind it. The writer flag must stand in the descriptor.
fn commit_record(
    bytes: &mut [u8],
    Ghost(count): Ghost<usize>,
    Ghost(mode): Ghost<BufferMode>,
    Ghost(planned): Ghost<CpuRing>,
    desc_offset: usize,
    cpu: usize,
    desc: &CpuImageDescriptor,
    place: Placement,
    kind: RecordKind,
    event_id: u32,
    timestamp: u64,
    payload: &[u8],
    len: usize,
)
    requires
        image_ok(old(bytes)@, count, ring_size(old(bytes)@), mode),
        desc_offset == TRACE_IMAGE_HEADER_SIZE,
        cpu < count,
        bytes::u64_at(old(bytes)@, descriptor_offset(cpu as int) + 72) == 1,
        *desc == (CpuImageDescriptor {
            state: desc.state,
            ..layout::descriptor_at(old(bytes)@, descriptor_offset(cpu as int))
        }),
        planned.ring == image_cpu(old(bytes)@, cpu as int).ring,
        planned.cursors_ok(),
        len == payload@.len(),
        ring::put_error(planned, mode, payload@.len()) is None,
        place == Placement::of(planned, ring::record_len(payload@.len())),
        (CpuRing {
            state: desc.state,
            ring: ring::put_bytes(planned.ring, 0, planned, kind, event_id, timestamp, payload@),
        }).wf(),
    ensures
        cpu_set(
            old(bytes)@,
            final(bytes)@,
            count,
            mode,
            cpu as int,
            CpuRing {
                state: desc.state,
                ring: ring::put_bytes(
                    planned.ring,
                    0,
                    planned,
                    kind,
                    event_id,
                    timestamp,
                    payload@,
                ),
            },
        ),
    opens_invariants none
    no_unwind
{
    let ghost before = bytes@;
    let ghost size = ring_size(before);
    let ghost base = ring_offset(count as int, size as int, cpu as int);
    let ghost after = CpuRing {
        state: desc.state,
        ring: ring::put_bytes(planned.ring, 0, planned, kind, event_id, timestamp, payload@),
    };
    proof {
        lemma_slots(count as int, size as int, cpu as int);
        assert(cpu_ok(before, count as int, size as int, cpu as int));
        assert(payload@.take(len as int) =~= payload@);
        ring::lemma_placement(planned, mode, payload@.len());
        ring::lemma_put_bytes_at(
            before,
            base,
            planned,
            mode,
            kind,
            event_id,
            timestamp,
            payload@,
        );
    }
    write_placed(bytes, desc.buffer_offset, place, kind, event_id, timestamp, payload, len);
    assert(bytes@ == bytes::overwrite(before, base, after.ring));
    write_cpu_descriptor(bytes, desc_offset, cpu, desc);
    proof {
        assert(bytes@.subrange(base, base + size) =~= after.ring);
        lemma_written(before, bytes@, count, size, mode, cpu as int, after);
    }
}

/// An image whose active flag is cleared.
pub open spec fn inactive(b: Seq<u8>) -> Seq<u8> {
    bytes::overwrite(
        b,
        TRACE_IMAGE_FLAGS_OFFSET as int,
        bytes::le_bytes((bytes::u64_at(b, 64) & !TRACE_IMAGE_FLAG_ACTIVE) as nat, 8),
    )
}

/// Clears the active flag in the image header.
fn clear_active(bytes: &mut [u8])
    requires
        old(bytes)@.len() >= TRACE_IMAGE_HEADER_SIZE,
    ensures
        final(bytes)@ == inactive(old(bytes)@),
    opens_invariants none
    no_unwind
{
    let flags: u64 = read_u64_at(bytes, TRACE_IMAGE_FLAGS_OFFSET) & !TRACE_IMAGE_FLAG_ACTIVE;
    write_u64_at(bytes, TRACE_IMAGE_FLAGS_OFFSET, flags);
}

/// Finishing an image clears the active flag and changes nothing else: the
/// image stays well-formed, with the same other header fields and the same CPUs.
pub proof fn law_finish(b: Seq<u8>, count: usize, size: usize, mode: BufferMode)
    requires
        image_ok(b, count, size, mode),
    ensures
        b.len() >= TRACE_IMAGE_HEADER_SIZE,
        image_ok(inactive(b), count, size, mode),
        ring_size(inactive(b)) == ring_size(b),
        layout::image_header(inactive(b)) == (ImageHeader {
            flags: layout::image_header(b).flags & !TRACE_IMAGE_FLAG_ACTIVE,
            ..layout::image_header(b)
        }),
        layout::image_header(inactive(b)).flags & TRACE_IMAGE_FLAG_ACTIVE == 0,
        forall|k: int|
            0 <= k < b.len() && !(64 <= k < 72) ==> #[trigger] inactive(b)[k] == b[k],
        forall|i: int| 0 <= i < count ==> #[trigger] image_cpu(inactive(b), i) == image_cpu(b, i),
{
    broadcast use bytes::lemma_le_bytes_len;

    lemma_slots(count as int, size as int, 0);
    let c = inactive(b);
    let flags = bytes::u64_at(b, 64);
    let cleared = flags & !TRACE_IMAGE_FLAG_ACTIVE;
    assert(flags & !1u64 & 1u64 == 0) by (bit_vector);
    bytes::lemma_int_round_trip();
    assert(c.subrange(64, 72) =~= bytes::le_bytes(cleared as nat, 8));
    assert(c.subrange(0, 8) =~= b.subrange(0, 8));
    assert(c.subrange(8, 10) =~= b.subrange(8, 10));
    assert(c.subrange(10, 12) =~= b.subrange(10, 12));
    assert(c.subrange(12, 14) =~= b.subrange(12, 14));
    assert(c.subrange(16, 18) =~= b.subrange(16, 18));
    assert(c.subrange(18, 20) =~= b.subrange(18, 20));
    assert(c.subrange(20, 22) =~= b.subrange(20, 22));
    assert(c.subrange(22, 24) =~= b.subrange(22, 24));
    assert(c.subrange(24, 28) =~= b.subrange(24, 28));
    assert(c.subrange(32, 40) =~= b.subrange(32, 40));
    assert(c.subrange(40, 42) =~= b.subrange(40, 42));
    assert(c.subrange(48, 56) =~= b.subrange(48, 56));
    assert(c.subrange(56, 64) =~= b.subrange(56, 64));
    assert(c.subrange(72, 76) =~= b.subrange(72, 76));
    assert forall|i: int| 0 <= i < count implies #[trigger] cpu_ok(
        c,
        count as int,
        size as int,
        i,
    ) && image_cpu(c, i) == image_cpu(b, i) by {
        assert(cpu_ok(b, count as int, size as int, i));
        lemma_slots(count as int, size as int, i);
        lemma_cpu_frame(b, c, descriptor_offset(i));
    }
    assert forall|i: int| 0 <= i < count implies #[trigger] image_cpu(c, i) == image_cpu(b, i) by {
        assert(cpu_ok(c, count as int, size as int, i));
    }
    assert(cpu_ok(c, count as int, size as int, 0));
    assert(cpu_ok(b, count as int, size as int, 0));
}

/// Finishing an image that was finished changes nothing.
pub proof fn law_finish_twice(b: Seq<u8>, count: usize, size: usize, mode: BufferMode)
    requires
        image_ok(b, count, size, mode),
    ensures
        inactive(inactive(b)) == inactive(b),
{
    broadcast use bytes::lemma_le_bytes_len;

    let once = inactive(b);
    law_finish(b, count, size, mode);
    let flags = bytes::u64_at(b, 64);
    let cleared = bytes::u64_at(once, 64);
    assert(cleared == flags & !TRACE_IMAGE_FLAG_ACTIVE);
    assert(flags & !1u64 & !1u64 == flags & !1u64) by (bit_vector);
    assert(inactive(once) =~= once);
}

/// Where the rings of an image start and where the image ends; `None` if that is
/// beyond the greatest address.
fn image_layout(cpu_count: usize, size: usize) -> (offsets: Option<(usize, usize)>)
    requires
        cpu_count >= 1,
        size >= RECORD_ALIGN,
    ensures
        match offsets {
            Some((start, end)) => {
                &&& start == ring_offset(cpu_count as int, size as int, 0)
                &&& end == ring_offset(cpu_count as int, size as int, cpu_count as int)
            },
            None => ring_offset(cpu_count as int, size as int, cpu_count as int) > usize::MAX,
        },
{
    proof {
        lemma_slots(cpu_count as int, size as int, 0);
    }
    let table: usize = cpu_count.checked_mul(TRACE_IMAGE_CPU_DESC_SIZE)?;
    let table_end: usize = table.checked_add(TRACE_IMAGE_HEADER_SIZE)?;
    if table_end > usize::MAX - (RECORD_ALIGN - 1) {
        return None;
    }
    let start: usize = align_up(table_end, RECORD_ALIGN);
    assert(start == table_end) by {
        assert(table_end as int % 8 == 0);
    }
    let rings: usize = cpu_count.checked_mul(size)?;
    let end: usize = start.checked_add(rings)?;
    Some((start, end))
}

impl<'a, P: TracePlatform> TraceImage<'a, P> {
    /// Initializes a trace image inside one caller-provided RAM region.
    ///
    /// # Returns
    ///
    /// Returns an active [`TraceImage`] on success.
    /// Returns [`TraceImageError::InvalidCpuCount`] if `cpu_count == 0`.
    /// Returns [`TraceImageError::BufferTooSmall`] if the per-CPU buffer size is
    /// too small for ring records.
    /// Returns [`TraceImageError::ImageTooSmall`] if `bytes` cannot hold the
    /// image header, CPU descriptors, and all per-CPU buffers.
    ///
    /// # Side Effects
    ///
    /// Clears the supplied RAM region, writes the image header and CPU
    /// descriptors, marks the image active, and reserves per-CPU ring buffers
    /// inside the same RAM region.
    pub fn init(config: TraceImageConfig<'a, P>) -> (result: Result<Self, TraceImageError>)
        ensures
            match (
                result,
                init_error(
                    old(config.bytes)@.len() as int,
                    config.cpu_count,
                    config.per_cpu_buffer_size,
                ),
            ) {
                (Err(error), Some(expected)) => {
                    &&& error == expected
                    &&& final(config.bytes)@ == old(config.bytes)@
                },
                (Ok(image), None) => {
                    let count = config.cpu_count;
                    let size = config.per_cpu_buffer_size;
                    let end = ring_offset(count as int, size as int, count as int);
                    &&& image.wf()
                    &&& image.count() == count
                    &&& image.buffer_size() == size
                    &&& image.buffer_mode() == config.mode
                    &&& image.hooks() == config.platform
                    &&& layout::image_header(image.memory()).flags == TRACE_IMAGE_FLAG_ACTIVE
                    &&& bytes::u64_at(image.memory(), 64) == 1
                    &&& forall|i: int|
                        0 <= i < count ==> #[trigger] image.cpu(i) == (CpuRing {
                            state: CpuState::fresh(),
                            ring: bytes::zeros(size as nat),
                        })
                    &&& image.memory().len() == old(config.bytes)@.len()
                    &&& forall|k: int|
                        end <= k < image.memory().len() ==> #[trigger] image.memory()[k] == 0
                    &&& forall|k: int|
                        0 <= k < TRACE_IMAGE_HEADER_SIZE && !layout::in_header_field(k)
                            ==> #[trigger] image.memory()[k] == 0
                    &&& forall|i: int, k: int|
                        0 <= i < count && 4 <= k < 8 ==> #[trigger] image.memory()[descriptor_offset(
                            i,
                        ) + k] == 0
                },
                _ => false,
            },
    {
        if config.cpu_count == 0 {
            return Err(TraceImageError::InvalidCpuCount);
        }
        if config.per_cpu_buffer_size < MIN_RING_BUFFER_SIZE {
            return Err(TraceImageError::BufferTooSmall);
        }
        let total: usize = config.bytes.len();
        let count: usize = config.cpu_count;
        let size: usize = config.per_cpu_buffer_size;
        let (ring_start, image_size) = match image_layout(count, size) {
            Some(offsets) => offsets,
            None => {
                return Err(TraceImageError::ImageTooSmall);
            },
        };
        if image_size > total {
            return Err(TraceImageError::ImageTooSmall);
        }
        proof {
            lemma_slots(count as int, size as int, 0);
        }
        fill_zero(config.bytes, 0, total);
        let ghost cleared = config.bytes@;
        write_image_header(
            config.bytes,
            count,
            TRACE_IMAGE_HEADER_SIZE,
            ring_start,
            image_size,
            config.mode,
            true,
        );
        let ghost headed = config.bytes@;
        write_descriptors(config.bytes, count, ring_start, size);
        proof {
            let b = config.bytes@;
            lemma_header_frame(headed, b);
            assert forall|i: int| 0 <= i < count implies {
                &&& #[trigger] cpu_ok(b, count as int, size as int, i)
                &&& image_cpu(b, i) == (CpuRing {
                    state: CpuState::fresh(),
                    ring: bytes::zeros(size as nat),
                })
            } by {
                lemma_slots(count as int, size as int, i);
                assert(descriptor_fresh(b, count as int, size as int, i));
                let desc = layout::descriptor_at(b, descriptor_offset(i));
                assert(desc.buffer_offset == ring_offset(count as int, size as int, i));
                assert(desc.buffer_size == size);
                assert(image_cpu(b, i).ring =~= bytes::zeros(size as nat));
                ring::law_fresh(bytes::zeros(size as nat));
            }
        }
        assert(cpu_ok(config.bytes@, count as int, size as int, 0));
        let image = TraceImage {
            bytes: config.bytes,
            cpu_count: count,
            platform: config.platform,
            mode: config.mode,
        };
        assert forall|i: int, k: int| 0 <= i < count && 4 <= k < 8 implies #[trigger] image.memory()[
        descriptor_offset(i) + k] == 0 by {
            lemma_slots(count as int, size as int, i);
            assert(headed[descriptor_offset(i) + k] == cleared[descriptor_offset(i) + k]);
        }
        assert forall|i: int| 0 <= i < count implies #[trigger] image.cpu(i) == (CpuRing {
            state: CpuState::fresh(),
            ring: bytes::zeros(size as nat),
        }) by {
            assert(cpu_ok(image.memory(), count as int, size as int, i));
        }
        Ok(image)
    }

    /// Appends an event on the given CPU at the given time.
    #[verifier::rlimit(100)]
    #[verifier::spinoff_prover]
    pub fn append_for_current_cpu(
        &mut self,
        cpu_id: u32,
        event: TraceEvent<'_>,
        timestamp: u64,
    ) -> (status: AppendStatus)
        ensures
            final(self).wf(),
            old(self).appended(*final(self), cpu_id, timestamp, event@, status),
    {
        let cpu_index: usize = cpu_id as usize;
        proof {
            use_type_invariant(&*self);
        }
        if cpu_index >= self.cpu_count {
            return AppendStatus::Dropped(DropReason::InvalidCpu);
        }
        let ghost b0 = self.bytes@;
        let ghost offset = descriptor_offset(cpu_id as int);
        let ghost cpu = image_cpu(b0, cpu_id as int);
        let ghost outcome = append::append_outcome(cpu, self.mode, cpu_id, timestamp, event@);
        proof {
            let size = ring_size(b0);
            lemma_slots(self.cpu_count as int, size as int, cpu_id as int);
            lemma_table(b0, self.cpu_count, size, self.mode, cpu_id as int);
            assert(cpu_ok(b0, self.cpu_count as int, size as int, cpu_id as int));
            append::law_append_keeps_wf(cpu, self.mode, cpu_id, timestamp, event@);
        }
        let desc_offset: usize = read_u64_at(
            self.bytes,
            TRACE_IMAGE_CPU_DESC_OFFSET_OFFSET,
        ) as usize;
        let mut desc = match read_cpu_descriptor(self.bytes, desc_offset, cpu_index) {
            Some(desc) => desc,
            None => {
                return AppendStatus::Dropped(DropReason::RecordTooLarge);
            },
        };
        let ghost start = desc;
        if desc.state.writer_active {
            desc.state.dropped = desc.state.dropped.saturating_add(1);
            desc.state.reentrant_dropped = desc.state.reentrant_dropped.saturating_add(1);
            store_state(
                self.bytes,
                Ghost(self.cpu_count),
                Ghost(self.mode),
                desc_offset,
                cpu_index,
                &desc,
            );
            proof {
                lemma_counters_changed(b0, self.bytes@, offset, start, desc);
            }
            return AppendStatus::Dropped(DropReason::Reentrant);
        }
        desc.state.writer_active = true;
        store_state(
            self.bytes,
            Ghost(self.cpu_count),
            Ghost(self.mode),
            desc_offset,
            cpu_index,
            &desc,
        );
        let seq: u64 = desc.state.per_cpu_seq;
        desc.state.per_cpu_seq = desc.state.per_cpu_seq.saturating_add(1);
        let ghost planned = CpuRing { state: desc.state, ring: cpu.ring };
        proof {
            let numbered = CpuRing {
                state: CpuState { per_cpu_seq: ring::bumped(seq), ..cpu.state },
                ring: cpu.ring,
            };
            append::lemma_put_ignores_writer(
                numbered,
                self.mode,
                cpu_id,
                seq,
                timestamp,
                event@,
                true,
            );
            append::lemma_put_writer(numbered, self.mode, cpu_id, seq, timestamp, event@);
        }
        let mut scratch: [u8; 512] = [0u8; 512];
        let mut writer = PayloadWriter::new(&mut scratch);
        let image: &[u8] = self.bytes;
        let result = plan_event(
            &mut desc.state,
            &image[desc.buffer_offset..desc.buffer_offset + desc.buffer_size],
            self.mode,
            cpu_id,
            seq,
            event,
            &mut writer,
        );
        desc.state.writer_active = false;
        match result {
            Ok(place) => {
                let payload = writer.written();
                let len: usize = payload.len();
                commit_record(
                    self.bytes,
                    Ghost(self.cpu_count),
                    Ghost(self.mode),
                    Ghost(planned),
                    desc_offset,
                    cpu_index,
                    &desc,
                    place,
                    event.kind(),
                    event.event_id(),
                    timestamp,
                    payload,
                    len,
                );
                AppendStatus::Written
            },
            Err(reason) => {
                desc.state.dropped = desc.state.dropped.saturating_add(1);
                store_state(
                    self.bytes,
                    Ghost(self.cpu_count),
                    Ghost(self.mode),
                    desc_offset,
                    cpu_index,
                    &desc,
                );
                proof {
                    lemma_counters_changed(b0, self.bytes@, offset, start, desc);
                }
                AppendStatus::Dropped(reason)
            },
        }
    }

    /// Appends a CPU context switch record to this image.
    ///
    /// # Returns
    ///
    /// Returns [`AppendStatus::Written`] if the record is appended.
    /// Returns [`AppendStatus::Dropped`] with [`DropReason::InvalidCpu`],
    /// [`DropReason::Reentrant`], [`DropReason::BufferFull`], or
    /// [`DropReason::RecordTooLarge`] when the append cannot be completed.
    ///
    /// # Side Effects
    ///
    /// Reads timestamp and CPU id from the platform, mutates the selected
    /// in-image ring buffer and descriptor, increments the per-CPU sequence
    /// number, and may increment drop counters.
    pub fn context_switch(
        &mut self,
        prev: TaskRef<'_>,
        prev_state: OffCpuState,
        next: TaskRef<'_>,
    ) -> (status: AppendStatus)
        ensures
            final(self).wf(),
            exists|cpu_id: u32, timestamp: u64|
                {
                    &&& #[trigger] platform::may_read(&old(self).hooks(), cpu_id, timestamp)
                    &&& old(self).appended(
                        *final(self),
                        cpu_id,
                        timestamp,
                        EventView::ContextSwitch { prev: prev@, prev_state, next: next@ },
                        status,
                    )
                },
    {
        let cpu_id = self.platform.cpu_id();
        let timestamp = self.platform.now_ns();
        assert(platform::may_read(&self.platform, cpu_id, timestamp));
        let event = TraceEvent::ContextSwitch { prev, prev_state, next };
        self.append_for_current_cpu(cpu_id, event, timestamp)
    }

    /// Appends a synchronous trace mark begin record to this image. The name is
    /// copied into the record.
    ///
    /// # Returns
    ///
    /// Returns [`AppendStatus::Written`] if the record is appended, or
    /// [`AppendStatus::Dropped`] with one of the reasons of
    /// [`TraceImage::context_switch`].
    ///
    /// # Side Effects
    ///
    /// Those of [`TraceImage::context_switch`].
    pub fn trace_mark_begin(&mut self, task: TaskRef<'_>, name: &str) -> (status: AppendStatus)
        ensures
            final(self).wf(),
            exists|cpu_id: u32, timestamp: u64|
                {
                    &&& #[trigger] platform::may_read(&old(self).hooks(), cpu_id, timestamp)
                    &&& old(self).appended(
                        *final(self),
                        cpu_id,
                        timestamp,
                        EventView::TraceMarkBegin { task: task@, name: name@ },
                        status,
                    )
                },
    {
        let cpu_id = self.platform.cpu_id();
        let timestamp = self.platform.now_ns();
        assert(platform::may_read(&self.platform, cpu_id, timestamp));
        let event = TraceEvent::TraceMarkBegin { task, name };
        self.append_for_current_cpu(cpu_id, event, timestamp)
    }

    /// Appends a synchronous trace mark end record to this image.
    ///
    /// # Returns
    ///
    /// Returns [`AppendStatus::Written`] if the record is appended, or
    /// [`AppendStatus::Dropped`] with one of the reasons of
    /// [`TraceImage::context_switch`].
    ///
    /// # Side Effects
    ///
    /// Those of [`TraceImage::context_switch`].
    pub fn trace_mark_end(&mut self, task: TaskRef<'_>) -> (status: AppendStatus)
        ensures
            final(self).wf(),
            exists|cpu_id: u32, timestamp: u64|
                {
                    &&& #[trigger] platform::may_read(&old(self).hooks(), cpu_id, timestamp)
                    &&& old(self).appended(
                        *final(self),
                        cpu_id,
                        timestamp,
                        EventView::TraceMarkEnd { task: task@ },
                        status,
                    )
                },
    {
        let cpu_id = self.platform.cpu_id();
        let timestamp = self.platform.now_ns();
        assert(platform::may_read(&self.platform, cpu_id, timestamp));
        let event = TraceEvent::TraceMarkEnd { task };
        self.append_for_current_cpu(cpu_id, event, timestamp)
    }

    /// Marks this image as no longer actively written.
    ///
    /// # Side Effects
    ///
    /// Clears the active flag in the image header. Existing records and
    /// descriptors remain in place for host-side parsing.
    pub fn finish(&mut self)
        ensures
            final(self).wf(),
            final(self).count() == old(self).count(),
            final(self).hooks() == old(self).hooks(),
            final(self).buffer_mode() == old(self).buffer_mode(),
            final(self).buffer_size() == old(self).buffer_size(),
            final(self).memory() == inactive(old(self).memory()),
            layout::image_header(final(self).memory()) == (ImageHeader {
                flags: layout::image_header(old(self).memory()).flags & !TRACE_IMAGE_FLAG_ACTIVE,
                ..layout::image_header(old(self).memory())
            }),
            layout::image_header(final(self).memory()).flags & TRACE_IMAGE_FLAG_ACTIVE == 0,
            forall|i: int|
                0 <= i < old(self).count() ==> #[trigger] final(self).cpu(i) == old(self).cpu(i),
    {
        proof {
            use_type_invariant(&*self);
            law_finish(self.memory(), self.cpu_count, self.buffer_size(), self.mode);
        }
        clear_active(self.bytes);
    }

    /// Creates a read-only snapshot view of this image. It does not copy records
    /// or stop the image.
    pub fn snapshot(&self) -> (snapshot: TraceImageSnapshot<'_>)
        ensures
            snapshot.memory() == self.memory(),
            snapshot.count() == self.count(),
            snapshot.table() == TRACE_IMAGE_HEADER_SIZE,
            snapshot.descriptor_size() == TRACE_IMAGE_CPU_DESC_SIZE,
            forall|i: int| 0 <= i < self.count() ==> #[trigger] snapshot.cpu(i) == self.cpu(i),
    {
        proof {
            use_type_invariant(self);
            lemma_readable(self.memory(), self.cpu_count, self.buffer_size(), self.mode);
        }
        TraceImageSnapshot::over(
            self.bytes,
            self.cpu_count,
            TRACE_IMAGE_HEADER_SIZE,
            TRACE_IMAGE_CPU_DESC_SIZE,
        )
    }
}

impl<P> Drop for TraceImage<'_, P> {
    /// Marks the image as no longer actively written.
    fn drop(&mut self)
        ensures
            final(self).memory() == inactive(old(self).memory()),
            final(self).count() == old(self).count(),
        opens_invariants none
        no_unwind
    {
        proof {
            use_type_invariant(&*self);
            law_finish(self.memory(), self.cpu_count, self.buffer_size(), self.mode);
        }
        clear_active(self.bytes);
    }
}

/// An image is in the bytes that its header declares.
proof fn lemma_prefix(a: Seq<u8>, b: Seq<u8>, count: usize, size: usize, mode: BufferMode)
    requires
        image_ok(a, count, size, mode),
        ring_offset(count as int, size as int, count as int) <= b.len() <= usize::MAX,
        forall|k: int|
            0 <= k < ring_offset(count as int, size as int, count as int) ==> #[trigger] a[k]
                == b[k],
    ensures
        image_ok(b, count, size, mode),
        layout::image_header(b) == layout::image_header(a),
        forall|i: int| 0 <= i < count ==> #[trigger] image_cpu(b, i) == image_cpu(a, i),
{
    lemma_slots(count as int, size as int, 0);
    lemma_header_frame(a, b);
    assert forall|i: int| 0 <= i < count implies #[trigger] image_cpu(b, i) == image_cpu(a, i)
        && cpu_ok(b, count as int, size as int, i) by {
        assert(cpu_ok(a, count as int, size as int, i));
        lemma_slots(count as int, size as int, i);
        lemma_cpu_frame(a, b, descriptor_offset(i));
    }
    assert forall|i: int| 0 <= i < count implies #[trigger] cpu_ok(
        b,
        count as int,
        size as int,
        i,
    ) by {
        assert(image_cpu(b, i) == image_cpu(a, i));
    }
}

/// The table of an image is not refused.
proof fn lemma_table_accepted(
    b: Seq<u8>,
    count: usize,
    size: usize,
    mode: BufferMode,
    from: int,
)
    requires
        image_ok(b, count, size, mode),
        0 <= from <= count,
    ensures
        snapshot::table_error(
            b,
            TRACE_IMAGE_HEADER_SIZE as int,
            ring_offset(count as int, size as int, count as int),
            from,
            count as int,
        ) is None,
    decreases count - from,
{
    if from < count {
        assert(cpu_ok(b, count as int, size as int, from));
        lemma_slots(count as int, size as int, from);
        lemma_table(b, count, size, mode, from);
        lemma_table_accepted(b, count, size, mode, from + 1);
    }
}

/// An image can be parsed at any time, whether or not it was finished.
///
/// Parsing the bytes of an image succeeds, and shows the number of CPUs and the
/// CPUs that the image has. The header has room for CPU counts of 32 bits.
pub proof fn law_image_parses(b: Seq<u8>, count: usize, size: usize, mode: BufferMode)
    requires
        image_ok(b, count, size, mode),
        count <= u32::MAX,
    ensures
        snapshot::parse_error(b) is None,
        layout::image_header(b).cpu_count == count,
        forall|i: int|
            0 <= i < count ==> #[trigger] snapshot::stream_at(
                b,
                layout::image_header(b).desc_offset as int,
                i,
            ) == image_cpu(b, i),
{
    lemma_slots(count as int, size as int, 0);
    lemma_table_accepted(b, count, size, mode, 0);
    lemma_readable(b, count, size, mode);
    let header = layout::image_header(b);
    assert(header.desc_offset as usize == TRACE_IMAGE_HEADER_SIZE);
    assert(header.image_size == ring_offset(count as int, size as int, count as int));
}

/// An image can be found in a dump of the memory around it.
///
/// If the bytes of an image are part of a RAM dump, parsing the dump with the
/// addresses of the dump and of the image succeeds, and shows the number of CPUs
/// and the CPUs that the image has.
pub proof fn law_image_parses_from_ram(
    ram: Seq<u8>,
    ram_base: u64,
    trace_base: u64,
    b: Seq<u8>,
    count: usize,
    size: usize,
    mode: BufferMode,
)
    requires
        image_ok(b, count, size, mode),
        count <= u32::MAX,
        ram_base <= trace_base,
        trace_base - ram_base + b.len() <= ram.len() <= usize::MAX,
        ram.subrange(trace_base - ram_base, trace_base - ram_base + b.len()) == b,
    ensures
        snapshot::ram_error(ram, ram_base, trace_base) is None,
        ({
            let found = snapshot::image_in_ram(ram, trace_base - ram_base);
            let header = layout::image_header(found);
            &&& header == layout::image_header(b)
            &&& header.cpu_count == count
            &&& forall|i: int|
                0 <= i < count ==> #[trigger] snapshot::stream_at(
                    found,
                    header.desc_offset as int,
                    i,
                ) == image_cpu(b, i)
        }),
{
    let offset = trace_base - ram_base;
    let end = ring_offset(count as int, size as int, count as int);
    let tail = ram.subrange(offset, ram.len() as int);
    let found = ram.subrange(offset, offset + end);
    lemma_slots(count as int, size as int, 0);
    assert forall|k: int| 0 <= k < b.len() implies #[trigger] b[k] == tail[k] && b[k] == ram[offset
        + k] by {
        assert(ram.subrange(offset, offset + b.len())[k] == ram[offset + k]);
    }
    lemma_prefix(b, tail, count, size, mode);
    lemma_prefix(b, found, count, size, mode);
    law_image_parses(tail, count, size, mode);
    law_image_parses(found, count, size, mode);
    assert(layout::image_header(tail).image_size == end);
    assert(snapshot::image_in_ram(ram, offset) == found);
}

/// What is written into an image is read from its bytes.
///
/// After an event was written on a CPU of an image, parsing the bytes of the
/// image succeeds. The CPU then shows the records it had, without the oldest
/// ones that had to make room, and then the record of the event, which decodes
/// to the timestamp, the CPU id, the sequence number and the event. All other
/// CPUs show the records they had.
pub proof fn law_read_image_after_append<'a, P>(
    before: TraceImage<'a, P>,
    after: TraceImage<'a, P>,
    cpu_id: u32,
    timestamp: u64,
    event: EventView,
)
    requires
        before.wf(),
        after.wf(),
        before.count() <= u32::MAX,
        before.appended(after, cpu_id, timestamp, event, AppendStatus::Written),
    ensures
        cpu_id < before.count(),
        snapshot::parse_error(after.memory()) is None,
        ({
            let table = layout::image_header(after.memory()).desc_offset as int;
            let cpu = before.cpu(cpu_id as int);
            let seq = cpu.state.per_cpu_seq;
            let lost = ring::lost_records(cpu, append::space_needed(cpu, cpu_id, event));
            let record = append::event_record(cpu_id, seq, timestamp, event);
            &&& 0 <= lost <= cpu.records().len()
            &&& snapshot::stream_at(after.memory(), table, cpu_id as int).records()
                == cpu.records().skip(lost).push(record)
            &&& record.decoded() == Some(
                DecodedView { timestamp, cpu_id, seq, event: event.as_read() },
            )
            &&& forall|i: int|
                0 <= i < before.count() && i != cpu_id ==> #[trigger] snapshot::stream_at(
                    after.memory(),
                    table,
                    i,
                ).records() == before.cpu(i).records()
        }),
{
    let b = after.memory();
    law_image_parses(b, after.count(), after.buffer_size(), after.buffer_mode());
    let cpu = before.cpu(cpu_id as int);
    assert(cpu_ok(
        before.memory(),
        before.count() as int,
        before.buffer_size() as int,
        cpu_id as int,
    ));
    append::law_read_after_append(cpu, before.buffer_mode(), cpu_id, timestamp, event);
    assert forall|i: int| 0 <= i < before.count() && i != cpu_id implies image_cpu(b, i)
        == before.cpu(i) by {
        assert(after.cpu(i) == before.cpu(i));
    }
    assert(after.cpu(cpu_id as int) == image_cpu(b, cpu_id as int));
}

/// What an append attempt on an image returns.
///
/// It is refused for the CPU just if there is no such CPU in the image. On a CPU of
/// the image, it is refused as reentrant while the CPU is appending, as too large
/// if the payload exceeds 512 bytes or the record the ring, and for want of room if
/// the record does not fit into the free bytes and old records may not make room.
/// In all other cases it is written. No other CPU changes.
pub proof fn law_image_append_decides<'a, P>(
    before: TraceImage<'a, P>,
    after: TraceImage<'a, P>,
    cpu_id: u32,
    timestamp: u64,
    event: EventView,
    status: AppendStatus,
    total: int,
)
    requires
        before.wf(),
        before.appended(after, cpu_id, timestamp, event, status),
        ring::is_record_len(total, append::payload_size(event)),
    ensures
        ({
            let cpu = before.cpu(cpu_id as int);
            status == (if cpu_id >= before.count() {
                AppendStatus::Dropped(DropReason::InvalidCpu)
            } else if cpu.state.writer_active {
                AppendStatus::Dropped(DropReason::Reentrant)
            } else if append::payload_size(event) > 512 || total > before.buffer_size() {
                AppendStatus::Dropped(DropReason::RecordTooLarge)
            } else if before.buffer_mode() == BufferMode::Overwrite || ring::fits_free(
                cpu,
                total,
            ) {
                AppendStatus::Written
            } else {
                AppendStatus::Dropped(DropReason::BufferFull)
            })
        }),
        after.count() == before.count(),
        after.buffer_mode() == before.buffer_mode(),
        forall|i: int|
            0 <= i < before.count() && i != cpu_id ==> #[trigger] after.cpu(i) == before.cpu(i),
{
    if cpu_id < before.count() {
        let size = before.buffer_size() as int;
        assert(cpu_ok(before.memory(), before.count() as int, size, cpu_id as int));
        lemma_slots(before.count() as int, size, cpu_id as int);
        assert(before.cpu(cpu_id as int).ring.len() == size);
        append::law_append_decides(
            before.cpu(cpu_id as int),
            before.buffer_mode(),
            cpu_id,
            timestamp,
            event,
            total,
        );
    }
}

/// An event for which a CPU of an image has enough free bytes is written, and
/// nothing is lost.
///
/// In either mode, a reader finds what it found before and then the event, with the
/// timestamp, the CPU id and the next sequence number, and the drop counter stays.
pub proof fn law_image_append_fits<'a, P>(
    before: TraceImage<'a, P>,
    after: TraceImage<'a, P>,
    cpu_id: u32,
    timestamp: u64,
    event: EventView,
    status: AppendStatus,
    total: int,
)
    requires
        before.wf(),
        before.appended(after, cpu_id, timestamp, event, status),
        cpu_id < before.count(),
        !before.cpu(cpu_id as int).state.writer_active,
        ring::is_record_len(total, append::payload_size(event)),
        append::payload_size(event) <= 512,
        total <= before.cpu(cpu_id as int).ring.len(),
        ring::fits_free(before.cpu(cpu_id as int), total),
    ensures
        ({
            let old_cpu = before.cpu(cpu_id as int);
            let new_cpu = after.cpu(cpu_id as int);
            &&& status == AppendStatus::Written
            &&& new_cpu.records().len() == old_cpu.records().len() + 1
            &&& new_cpu.records().drop_last() == old_cpu.records()
            &&& new_cpu.records().last().decoded() == Some(
                DecodedView {
                    timestamp,
                    cpu_id,
                    seq: old_cpu.state.per_cpu_seq,
                    event: event.as_read(),
                },
            )
            &&& new_cpu.state.dropped == old_cpu.state.dropped
        }),
{
    assert(cpu_ok(
        before.memory(),
        before.count() as int,
        before.buffer_size() as int,
        cpu_id as int,
    ));
    append::law_append_fits(
        before.cpu(cpu_id as int),
        before.buffer_mode(),
        cpu_id,
        timestamp,
        event,
        total,
    );
}

/// When an image can be initialized, and what each refusal means.
///
/// There must be a CPU, each ring must have at least 32 bytes, and the region must
/// hold 96 bytes, 80 bytes for each CPU, and the rings. Each of these decides alone,
/// in this order.
pub proof fn law_init_decides(len: int, cpu_count: usize, size: usize)
    ensures
        init_error(len, cpu_count, size) == (if cpu_count == 0 {
            Some(TraceImageError::InvalidCpuCount)
        } else if size < 32 {
            Some(TraceImageError::BufferTooSmall)
        } else if 96 + 80 * cpu_count + cpu_count * size > len {
            Some(TraceImageError::ImageTooSmall)
        } else {
            None
        }),
{
}

/// Where everything stands in an image.
///
/// The fields of the header stand at fixed places. The descriptor of each CPU
/// follows, 80 bytes each, and then the ring of each CPU. A descriptor names its CPU
/// and its ring and holds the state of the CPU.
pub proof fn law_image_layout(b: Seq<u8>, count: usize, size: usize, mode: BufferMode, i: int)
    requires
        image_ok(b, count, size, mode),
        0 <= i < count,
    ensures
        bytes::u64_at(b, 0) == 0x0045_4341_5254_534f,
        bytes::u16_at(b, 8) == 1,
        bytes::u16_at(b, 10) == 0,
        bytes::u16_at(b, 12) == 96,
        b[14] == 1,
        bytes::u16_at(b, 16) == 1,
        bytes::u16_at(b, 18) == 0,
        bytes::u16_at(b, 20) == 16,
        bytes::u16_at(b, 22) == 8,
        count <= u32::MAX ==> bytes::u32_at(b, 24) == count,
        bytes::u64_at(b, 32) == 96,
        bytes::u16_at(b, 40) == 80,
        bytes::u64_at(b, 48) == 96 + 80 * count,
        bytes::u64_at(b, 56) == 96 + 80 * count + count * size,
        bytes::u32_at(b, 72) == (if mode == BufferMode::StopOnFull {
            1int
        } else {
            0int
        }),
        ({
            let at = 96 + 80 * i;
            let start = 96 + 80 * count + i * size;
            let cpu = image_cpu(b, i);
            &&& bytes::u32_at(b, at) == i as u32
            &&& bytes::u64_at(b, at + 8) == start
            &&& bytes::u64_at(b, at + 16) == size
            &&& bytes::u64_at(b, at + 24) == cpu.state.write_pos
            &&& bytes::u64_at(b, at + 32) == cpu.state.read_pos
            &&& bytes::u64_at(b, at + 40) == cpu.state.used
            &&& bytes::u64_at(b, at + 48) == cpu.state.per_cpu_seq
            &&& bytes::u64_at(b, at + 56) == cpu.state.dropped
            &&& bytes::u64_at(b, at + 64) == cpu.state.reentrant_dropped
            &&& bytes::u64_at(b, at + 72) == (if cpu.state.writer_active {
                1int
            } else {
                0int
            })
            &&& cpu.ring == b.subrange(start, start + size)
            &&& start + size <= b.len()
        }),
{
    assert(cpu_ok(b, count as int, size as int, i));
    lemma_slots(count as int, size as int, i);
    let header = layout::image_header(b);
    assert(header.magic == 0x0045_4341_5254_534f);
    assert(header.ring_offset == 96 + 80 * count);
    assert(header.image_size == 96 + 80 * count + count * size);
}

/// Finishing an image clears the lowest bit of the flags in its header, and changes
/// no other bit of the region.
pub proof fn law_finish_clears_a_bit(b: Seq<u8>)
    requires
        b.len() >= 96,
    ensures
        inactive(b).len() == b.len(),
        bytes::u64_at(inactive(b), 64) == bytes::u64_at(b, 64) - bytes::u64_at(b, 64) % 2,
        forall|k: int| 0 <= k < b.len() && !(64 <= k < 72) ==> #[trigger] inactive(b)[k] == b[k],
{
    broadcast use bytes::lemma_le_bytes_len;

    let flags = bytes::u64_at(b, 64);
    assert(flags & !1u64 == flags - flags % 2) by (bit_vector);
    let cleared = flags & !TRACE_IMAGE_FLAG_ACTIVE;
    bytes::lemma_int_round_trip();
    assert(inactive(b).subrange(64, 72) =~= bytes::le_bytes(cleared as nat, 8));
}

/// Which bytes an append attempt on an image can change.
///
/// Just bytes of the descriptor and of the ring of its CPU; if the event is not
/// written, just the sequence number and the counters of drops in the descriptor, and
/// the sequence number not for a reentrant attempt; if there is no such CPU, none.
pub proof fn law_image_append_touches<'a, P>(
    before: TraceImage<'a, P>,
    after: TraceImage<'a, P>,
    cpu_id: u32,
    timestamp: u64,
    event: EventView,
    status: AppendStatus,
    k: int,
)
    requires
        before.wf(),
        before.appended(after, cpu_id, timestamp, event, status),
        0 <= k < before.memory().len(),
    ensures
        after.memory().len() == before.memory().len(),
        ({
            let desc = 96 + 80 * cpu_id;
            let ring = 96 + 80 * before.count() + cpu_id * before.buffer_size();
            after.memory()[k] != before.memory()[k] ==> {
                &&& cpu_id < before.count()
                &&& desc <= k < desc + 80 || ring <= k < ring + before.buffer_size()
                &&& status != AppendStatus::Written ==> desc + 48 <= k < desc + 72
                &&& status == AppendStatus::Dropped(DropReason::Reentrant) ==> desc + 56 <= k
            }
        }),
{
}

} // verus!
