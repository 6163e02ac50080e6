//! Trace sessions over split storage: the caller supplies the session flag, the
//! per-CPU states and one ring buffer per CPU.

use vstd::prelude::*;

use crate::append;
use crate::append::append_event;
use crate::bytes;
use crate::bytes::fill_zero;
use crate::payload::{DecodedView, EventView, TraceEvent};
use crate::platform;
use crate::platform::TracePlatform;
use crate::ring;
use crate::ring::{AppendStatus, BufferMode, CpuRing, CpuState, DropReason, MIN_RING_BUFFER_SIZE};
use crate::stream::RecordIter;
use crate::task::{OffCpuState, TaskRef};

verus! {

/// Errors returned while creating a recorder or starting a trace session.
#[derive(Clone, Copy, Debug, Eq, PartialEq)]
pub enum TraceError {
    /// `cpu_count` was zero.
    InvalidCpuCount,
    /// Runtime `cpu_count` exceeds the session storage compile-time capacity.
    TooManyCpus,
    /// The number of supplied per-CPU buffers does not match `cpu_count`.
    CpuBufferCountMismatch,
    /// At least one per-CPU buffer is too small to hold records safely.
    BufferTooSmall,
    /// Another trace session is already active for this recorder storage.
    SessionAlreadyActive,
}

/// Library-level trace state shared across trace sessions.
///
/// This state is caller-owned and borrowed by [`TraceRecorder`]. It does not
/// contain per-CPU buffers or session-local cursors.
#[derive(Clone, Copy, Debug, Eq, PartialEq)]
pub struct GlobalState {
    /// Whether a trace session is currently active.
    pub active_session: bool,
}

impl GlobalState {
    /// Creates an inactive global state value.
    pub fn new() -> (state: Self)
        ensures
            !state.active_session,
    {
        GlobalState { active_session: false }
    }
}

impl Default for GlobalState {
    fn default() -> (state: Self)
        ensures
            !state.active_session,
    {
        GlobalState::new()
    }
}

/// Caller-owned storage for the trace subsystem.
///
/// A single [`TraceStorage`] can be reused across sessions, but only one session
/// may be active at a time.
#[derive(Clone, Copy, Debug, Eq, PartialEq)]
pub struct TraceStorage {
    /// Library-global state for the recorder.
    pub global: GlobalState,
}

impl TraceStorage {
    /// Creates trace subsystem storage with no active session.
    pub fn new() -> (storage: Self)
        ensures
            !storage.global.active_session,
    {
        TraceStorage { global: GlobalState::new() }
    }

    /// Reports whether this storage currently has an active session.
    pub fn is_session_active(&self) -> (active: bool)
        ensures
            active == self.global.active_session,
    {
        self.global.active_session
    }
}

impl Default for TraceStorage {
    fn default() -> (storage: Self)
        ensures
            !storage.global.active_session,
    {
        TraceStorage::new()
    }
}

/// Session-local storage for all per-CPU states.
///
/// The storage is caller-owned and borrowed for the lifetime of a
/// [`TraceSession`]. It can be reused after the session ends.
pub struct TraceSessionStorage<const MAX_CPUS: usize> {
    /// Per-CPU state array. Only `cpu_count` entries are active in a session.
    pub cpus: [CpuState; MAX_CPUS],
}

impl<const MAX_CPUS: usize> TraceSessionStorage<MAX_CPUS> {
    /// Creates session-local per-CPU state storage with `MAX_CPUS` empty states.
    pub fn new() -> (storage: Self)
        ensures
            forall|i: int| 0 <= i < MAX_CPUS ==> storage.cpus@[i] == CpuState::fresh(),
    {
        TraceSessionStorage { cpus: [CpuState::new(); MAX_CPUS] }
    }

    /// Returns the state for one CPU.
    ///
    /// # Returns
    ///
    /// Returns `Some(&CpuState)` if `cpu < MAX_CPUS`; otherwise returns `None`.
    pub fn cpu_state(&self, cpu: usize) -> (state: Option<&CpuState>)
        ensures
            state == (if cpu < MAX_CPUS {
                Some(&self.cpus@[cpu as int])
            } else {
                None
            }),
    {
        if cpu < MAX_CPUS {
            Some(&self.cpus[cpu])
        } else {
            None
        }
    }
}

impl<const MAX_CPUS: usize> Default for TraceSessionStorage<MAX_CPUS> {
    fn default() -> (storage: Self)
        ensures
            forall|i: int| 0 <= i < MAX_CPUS ==> storage.cpus@[i] == CpuState::fresh(),
    {
        TraceSessionStorage::new()
    }
}

/// Caller-owned backing memory for one CPU's ring buffer in one session.
pub struct CpuBuffer<'buf> {
    /// Mutable byte slice used as this CPU's ring buffer.
    ///
    /// The slice is zeroed when a session starts and is returned to the caller
    /// when the session ends.
    pub bytes: &'buf mut [u8],
}

/// Configuration used to create a [`TraceRecorder`].
pub struct TraceConfig<'a, P> {
    /// Library-level storage borrowed by the recorder.
    pub storage: &'a mut TraceStorage,
    /// Number of CPUs that may write records.
    pub cpu_count: usize,
    /// Platform hooks used to obtain timestamps and CPU ids.
    pub platform: P,
}

/// Configuration used to start one trace session.
pub struct SessionConfig<'a, const MAX_CPUS: usize> {
    /// Session-local per-CPU state storage.
    pub state: &'a mut TraceSessionStorage<MAX_CPUS>,
    /// Per-CPU ring buffer backing memory.
    pub cpu_buffers: &'a mut [CpuBuffer<'a>],
    /// Ring buffer overflow policy.
    pub mode: BufferMode,
}

/// Trace subsystem handle that owns platform hooks and borrows global storage.
pub struct TraceRecorder<'a, P> {
    /// Borrowed library-level storage.
    pub storage: &'a mut TraceStorage,
    /// Runtime CPU count enabled for tracing.
    pub cpu_count: usize,
    /// Platform hooks used by active sessions.
    pub platform: P,
}

/// Some buffer is too small for a ring.
pub open spec fn any_too_small(buffers: Seq<CpuBuffer<'_>>) -> bool {
    exists|i: int|
        0 <= i < buffers.len() && (#[trigger] buffers[i]).bytes@.len() < MIN_RING_BUFFER_SIZE
}

/// The error with which a session is refused, if it is: the checks apply in
/// this order.
pub open spec fn start_error(
    active: bool,
    cpu_count: usize,
    max_cpus: usize,
    buffers: Seq<CpuBuffer<'_>>,
) -> Option<TraceError> {
    if active {
        Some(TraceError::SessionAlreadyActive)
    } else if cpu_count > max_cpus {
        Some(TraceError::TooManyCpus)
    } else if buffers.len() != cpu_count {
        Some(TraceError::CpuBufferCountMismatch)
    } else if any_too_small(buffers) {
        Some(TraceError::BufferTooSmall)
    } else {
        None
    }
}

/// Reports whether every buffer is large enough for a ring.
fn all_large_enough(buffers: &[CpuBuffer<'_>]) -> (enough: bool)
    ensures
        enough == !any_too_small(buffers@),
{
    let mut i: usize = 0;
    while i < buffers.len()
        invariant
            i <= buffers@.len(),
            forall|j: int|
                0 <= j < i ==> (#[trigger] buffers@[j]).bytes@.len() >= MIN_RING_BUFFER_SIZE,
        decreases buffers@.len() - i,
    {
        if buffers[i].bytes.len() < MIN_RING_BUFFER_SIZE {
            assert(buffers@[i as int].bytes@.len() < MIN_RING_BUFFER_SIZE);
            return false;
        }
        i = i + 1;
    }
    true
}

/// Resets the first `count` states.
fn reset_states<const MAX_CPUS: usize>(
    storage: &mut TraceSessionStorage<MAX_CPUS>,
    count: usize,
)
    requires
        count <= MAX_CPUS,
    ensures
        forall|i: int| 0 <= i < count ==> final(storage).cpus@[i] == CpuState::fresh(),
        forall|i: int| count <= i < MAX_CPUS ==> final(storage).cpus@[i] == old(storage).cpus@[i],
{
    let mut i: usize = 0;
    while i < count
        invariant
            i <= count <= MAX_CPUS,
            forall|j: int| 0 <= j < i ==> storage.cpus@[j] == CpuState::fresh(),
            forall|j: int| i <= j < MAX_CPUS ==> storage.cpus@[j] == old(storage).cpus@[j],
        decreases count - i,
    {
        storage.cpus[i].reset();
        i = i + 1;
    }
}

/// Clears all buffers.
fn clear_buffers(buffers: &mut [CpuBuffer<'_>])
    ensures
        final(buffers)@.len() == old(buffers)@.len(),
        forall|i: int|
            0 <= i < old(buffers)@.len() ==> (#[trigger] final(buffers)@[i]).bytes@
                == bytes::zeros(old(buffers)@[i].bytes@.len()),
        forall|i: int|
            0 <= i < old(buffers)@.len() ==> final((#[trigger] final(buffers)@[i]).bytes)@
                == final(old(buffers)@[i].bytes)@,
{
    let ghost given = buffers@;
    let count: usize = buffers.len();
    let mut i: usize = 0;
    while i < count
        invariant
            i <= count,
            given.len() == count,
            buffers@.len() == count,
            forall|j: int|
                0 <= j < i ==> (#[trigger] buffers@[j]).bytes@ == bytes::zeros(
                    given[j].bytes@.len(),
                ),
            forall|j: int| i <= j < count ==> #[trigger] buffers@[j] == given[j],
            forall|j: int|
                0 <= j < count ==> final((#[trigger] buffers@[j]).bytes)@ == final(given[j].bytes)@,
        decreases count - i,
    {
        let size: usize = buffers[i].bytes.len();
        fill_zero(buffers[i].bytes, 0, size);
        assert(buffers@[i as int].bytes@ =~= bytes::zeros(size as nat));
        i = i + 1;
    }
}

impl<'a, P: TracePlatform> TraceRecorder<'a, P> {
    /// Creates a trace recorder over caller-owned global storage.
    ///
    /// # Returns
    ///
    /// Returns a [`TraceRecorder`] on success.
    /// Returns [`TraceError::InvalidCpuCount`] when `config.cpu_count == 0`.
    ///
    /// # Side Effects
    ///
    /// This function borrows `config.storage` for the recorder lifetime. It does
    /// not modify session state or buffers.
    pub fn new(config: TraceConfig<'a, P>) -> (result: Result<Self, TraceError>)
        ensures
            match result {
                Err(error) => {
                    &&& config.cpu_count == 0
                    &&& error == TraceError::InvalidCpuCount
                    &&& *final(config.storage) == *old(config.storage)
                },
                Ok(recorder) => {
                    &&& config.cpu_count > 0
                    &&& *recorder.storage == *old(config.storage)
                    &&& *final(recorder.storage) == *final(config.storage)
                    &&& recorder.cpu_count == config.cpu_count
                    &&& recorder.platform == config.platform
                },
            },
    {
        if config.cpu_count == 0 {
            return Err(TraceError::InvalidCpuCount);
        }
        Ok(
            TraceRecorder {
                storage: config.storage,
                cpu_count: config.cpu_count,
                platform: config.platform,
            },
        )
    }

    /// Starts a trace session over caller-provided per-CPU buffers.
    ///
    /// # Returns
    ///
    /// Returns an active [`TraceSession`] on success.
    /// Returns [`TraceError::SessionAlreadyActive`] if another session is active.
    /// Returns [`TraceError::TooManyCpus`] if the recorder CPU count exceeds
    /// `MAX_CPUS`.
    /// Returns [`TraceError::CpuBufferCountMismatch`] if the number of supplied
    /// buffers differs from the recorder CPU count.
    /// Returns [`TraceError::BufferTooSmall`] if any buffer is smaller than the
    /// minimum ring buffer size.
    ///
    /// # Side Effects
    ///
    /// Sets the global active-session flag, resets active per-CPU session state,
    /// and zeroes all supplied per-CPU buffers. The active-session flag is
    /// cleared when the returned [`TraceSession`] is dropped.
    pub fn start_session<'session, const MAX_CPUS: usize>(
        &'session mut self,
        config: SessionConfig<'session, MAX_CPUS>,
    ) -> (result: Result<TraceSession<'session, P, MAX_CPUS>, TraceError>)
        ensures
            final(self).cpu_count == old(self).cpu_count,
            final(self).platform == old(self).platform,
            *final(final(self).storage) == *final(old(self).storage),
            match (
                result,
                start_error(
                    old(self).storage.global.active_session,
                    old(self).cpu_count,
                    MAX_CPUS,
                    old(config.cpu_buffers)@,
                ),
            ) {
                (Err(error), Some(expected)) => {
                    &&& error == expected
                    &&& *final(self).storage == *old(self).storage
                    &&& *final(config.state) == *old(config.state)
                    &&& final(config.cpu_buffers)@ == old(config.cpu_buffers)@
                },
                (Ok(session), None) => {
                    &&& session.wf()
                    &&& session.storage.global.active_session
                    &&& *final(session.storage) == *final(self).storage
                    &&& session.cpu_count == old(self).cpu_count
                    &&& *session.platform == old(self).platform
                    &&& session.mode == config.mode
                    &&& forall|i: int|
                        0 <= i < session.cpu_count ==> #[trigger] session.cpu(i) == (CpuRing {
                            state: CpuState::fresh(),
                            ring: bytes::zeros(old(config.cpu_buffers)@[i].bytes@.len()),
                        })
                    &&& forall|i: int|
                        session.cpu_count <= i < MAX_CPUS ==> #[trigger] session.state.cpus@[i]
                            == old(config.state).cpus@[i]
                    &&& *final(session.state) == *final(config.state)
                    &&& final(session.cpu_buffers)@ == final(config.cpu_buffers)@
                    &&& forall|i: int|
                        0 <= i < session.cpu_count ==> final((
                        #[trigger] session.cpu_buffers@[i]).bytes)@ == final(old(config.cpu_buffers)@[i].bytes)@
                },
                _ => false,
            },
    {
        if self.storage.global.active_session {
            return Err(TraceError::SessionAlreadyActive);
        }
        if self.cpu_count > MAX_CPUS {
            return Err(TraceError::TooManyCpus);
        }
        let count: usize = self.cpu_count;
        if config.cpu_buffers.len() != count {
            return Err(TraceError::CpuBufferCountMismatch);
        }
        let ghost given = config.cpu_buffers@;
        if !all_large_enough(config.cpu_buffers) {
            return Err(TraceError::BufferTooSmall);
        }
        reset_states(config.state, count);
        clear_buffers(config.cpu_buffers);
        self.storage.global.active_session = true;
        let session = TraceSession {
            storage: self.storage,
            cpu_count: count,
            platform: &self.platform,
            state: config.state,
            cpu_buffers: config.cpu_buffers,
            mode: config.mode,
        };
        assert forall|j: int| 0 <= j < count implies #[trigger] session.cpu(j) == (CpuRing {
            state: CpuState::fresh(),
            ring: bytes::zeros(given[j].bytes@.len()),
        }) && session.cpu(j).wf() by {
            assert(session.cpu_buffers@[j].bytes@ == bytes::zeros(given[j].bytes@.len()));
            assert(given[j].bytes@.len() >= MIN_RING_BUFFER_SIZE);
            assert(given[j].bytes.len() <= usize::MAX);
            ring::law_fresh(session.cpu(j).ring);
        }
        Ok(session)
    }
}

/// Active trace session that appends records into per-CPU ring buffers.
///
/// Dropping a session ends it and clears the recorder's active-session flag.
pub struct TraceSession<'a, P, const MAX_CPUS: usize> {
    /// Borrowed library-level storage used to clear the active flag on drop.
    pub storage: &'a mut TraceStorage,
    /// Runtime CPU count enabled for this session.
    pub cpu_count: usize,
    /// Platform hooks shared with the recorder.
    pub platform: &'a P,
    /// Session-local per-CPU cursor and counter state.
    pub state: &'a mut TraceSessionStorage<MAX_CPUS>,
    /// Session-local per-CPU ring buffer backing memory.
    pub cpu_buffers: &'a mut [CpuBuffer<'a>],
    /// Ring buffer overflow policy.
    pub mode: BufferMode,
}

impl<P, const MAX_CPUS: usize> Drop for TraceSession<'_, P, MAX_CPUS> {
    /// Ends the session.
    fn drop(&mut self)
        ensures
            !final(self).storage.global.active_session,
            *final(final(self).storage) == *final(old(self).storage),
            final(self).cpu_count == old(self).cpu_count,
            final(self).state == old(self).state,
            final(self).cpu_buffers == old(self).cpu_buffers,
        opens_invariants none
        no_unwind
    {
        self.storage.global.active_session = false;
    }
}

impl<'a, P, const MAX_CPUS: usize> TraceSession<'a, P, MAX_CPUS> {
    /// One CPU of the session.
    pub open spec fn cpu(self, i: int) -> CpuRing {
        CpuRing { state: self.state.cpus@[i], ring: self.cpu_buffers@[i].bytes@ }
    }

    /// The invariant of a session: each active CPU has a state and a
    /// well-formed ring.
    pub open spec fn wf(self) -> bool {
        &&& self.cpu_count <= MAX_CPUS
        &&& self.cpu_buffers@.len() == self.cpu_count
        &&& forall|i: int| 0 <= i < self.cpu_count ==> (#[trigger] self.cpu(i)).wf()
    }

    /// The session `after` is this session after an append attempt on the given
    /// CPU at the given time: that CPU has the outcome of the attempt, and
    /// nothing else has changed. A CPU outside the session has no outcome.
    pub open spec fn appended(
        self,
        after: TraceSession<'a, P, MAX_CPUS>,
        cpu_id: u32,
        timestamp: u64,
        event: EventView,
        status: AppendStatus,
    ) -> bool {
        &&& after.cpu_count == self.cpu_count
        &&& after.platform == self.platform
        &&& after.mode == self.mode
        &&& *after.storage == *self.storage
        &&& after.cpu_buffers@.len() == self.cpu_buffers@.len()
        &&& forall|i: int|
            0 <= i < self.cpu_count && i != cpu_id ==> #[trigger] after.cpu(i) == self.cpu(i)
        &&& forall|i: int|
            self.cpu_count <= i < MAX_CPUS ==> #[trigger] after.state.cpus@[i]
                == self.state.cpus@[i]
        &&& if cpu_id >= self.cpu_count {
            status == AppendStatus::Dropped(DropReason::InvalidCpu)
        } else {
            (after.cpu(cpu_id as int), status) == append::append_outcome(
                self.cpu(cpu_id as int),
                self.mode,
                cpu_id,
                timestamp,
                event,
            )
        }
    }
}

impl<'a, P: TracePlatform, const MAX_CPUS: usize> TraceSession<'a, P, MAX_CPUS> {
    /// Appends an event on the given CPU at the given time.
    pub fn append_for_current_cpu(
        &mut self,
        cpu_id: u32,
        event: TraceEvent<'_>,
        timestamp: u64,
    ) -> (status: AppendStatus)
        requires
            old(self).wf(),
        ensures
            final(self).wf(),
            old(self).appended(*final(self), cpu_id, timestamp, event@, status),
            *final(final(self).storage) == *final(old(self).storage),
            *final(final(self).state) == *final(old(self).state),
            final(final(self).cpu_buffers)@ == final(old(self).cpu_buffers)@,
            forall|i: int|
                0 <= i < old(self).cpu_count ==> final((
                #[trigger] final(self).cpu_buffers@[i]).bytes)@ == final(
                    old(self).cpu_buffers@[i].bytes)@,
    {
        let index: usize = cpu_id as usize;
        if index >= self.cpu_count {
            return AppendStatus::Dropped(DropReason::InvalidCpu);
        }
        let ghost before = *self;
        proof {
            append::law_append_keeps_wf(
                self.cpu(index as int),
                self.mode,
                cpu_id,
                timestamp,
                event@,
            );
        }
        let status = append_event(
            &mut self.state.cpus[index],
            self.cpu_buffers[index].bytes,
            self.mode,
            cpu_id,
            timestamp,
            event,
        );
        assert forall|i: int| 0 <= i < self.cpu_count && i != cpu_id implies #[trigger] self.cpu(i)
            == before.cpu(i) by {}
        status
    }

    /// Appends a CPU context switch record.
    ///
    /// # Returns
    ///
    /// Returns [`AppendStatus::Written`] if the record is appended.
    /// Returns [`AppendStatus::Dropped`] with [`DropReason::InvalidCpu`] if the
    /// platform CPU id is outside the configured CPU range.
    /// Returns [`AppendStatus::Dropped`] with [`DropReason::Reentrant`] if this
    /// CPU is already appending a record.
    /// Returns [`AppendStatus::Dropped`] with [`DropReason::BufferFull`] when
    /// the buffer is full in [`BufferMode::StopOnFull`].
    /// Returns [`AppendStatus::Dropped`] with [`DropReason::RecordTooLarge`] if
    /// the encoded record does not fit.
    ///
    /// # Side Effects
    ///
    /// Reads timestamp and CPU id from the platform, mutates the selected
    /// per-CPU ring buffer and CPU state, increments the per-CPU sequence number,
    /// and may increment drop counters.
    pub fn context_switch(
        &mut self,
        prev: TaskRef<'_>,
        prev_state: OffCpuState,
        next: TaskRef<'_>,
    ) -> (status: AppendStatus)
        requires
            old(self).wf(),
        ensures
            final(self).wf(),
            exists|cpu_id: u32, timestamp: u64|
                {
                    &&& #[trigger] platform::may_read(old(self).platform, cpu_id, timestamp)
                    &&& old(self).appended(
                        *final(self),
                        cpu_id,
                        timestamp,
                        EventView::ContextSwitch { prev: prev@, prev_state, next: next@ },
                        status,
                    )
                },
            *final(final(self).storage) == *final(old(self).storage),
            *final(final(self).state) == *final(old(self).state),
            final(final(self).cpu_buffers)@ == final(old(self).cpu_buffers)@,
            forall|i: int|
                0 <= i < old(self).cpu_count ==> final((
                #[trigger] final(self).cpu_buffers@[i]).bytes)@ == final(
                    old(self).cpu_buffers@[i].bytes)@,
    {
        let cpu_id = self.platform.cpu_id();
        let timestamp = self.platform.now_ns();
        assert(platform::may_read(self.platform, cpu_id, timestamp));
        let event = TraceEvent::ContextSwitch { prev, prev_state, next };
        self.append_for_current_cpu(cpu_id, event, timestamp)
    }

    /// Appends a synchronous trace mark begin record. The name is copied into
    /// the record.
    ///
    /// # Returns
    ///
    /// Returns [`AppendStatus::Written`] if the record is appended, or
    /// [`AppendStatus::Dropped`] with one of the reasons of
    /// [`TraceSession::context_switch`].
    ///
    /// # Side Effects
    ///
    /// Those of [`TraceSession::context_switch`].
    pub fn trace_mark_begin(&mut self, task: TaskRef<'_>, name: &str) -> (status: AppendStatus)
        requires
            old(self).wf(),
        ensures
            final(self).wf(),
            exists|cpu_id: u32, timestamp: u64|
                {
                    &&& #[trigger] platform::may_read(old(self).platform, cpu_id, timestamp)
                    &&& old(self).appended(
                        *final(self),
                        cpu_id,
                        timestamp,
                        EventView::TraceMarkBegin { task: task@, name: name@ },
                        status,
                    )
                },
            *final(final(self).storage) == *final(old(self).storage),
            *final(final(self).state) == *final(old(self).state),
            final(final(self).cpu_buffers)@ == final(old(self).cpu_buffers)@,
            forall|i: int|
                0 <= i < old(self).cpu_count ==> final((
                #[trigger] final(self).cpu_buffers@[i]).bytes)@ == final(
                    old(self).cpu_buffers@[i].bytes)@,
    {
        let cpu_id = self.platform.cpu_id();
        let timestamp = self.platform.now_ns();
        assert(platform::may_read(self.platform, cpu_id, timestamp));
        let event = TraceEvent::TraceMarkBegin { task, name };
        self.append_for_current_cpu(cpu_id, event, timestamp)
    }

    /// Appends a synchronous trace mark end record.
    ///
    /// # Returns
    ///
    /// Returns [`AppendStatus::Written`] if the record is appended, or
    /// [`AppendStatus::Dropped`] with one of the reasons of
    /// [`TraceSession::context_switch`].
    ///
    /// # Side Effects
    ///
    /// Those of [`TraceSession::context_switch`].
    pub fn trace_mark_end(&mut self, task: TaskRef<'_>) -> (status: AppendStatus)
        requires
            old(self).wf(),
        ensures
            final(self).wf(),
            exists|cpu_id: u32, timestamp: u64|
                {
                    &&& #[trigger] platform::may_read(old(self).platform, cpu_id, timestamp)
                    &&& old(self).appended(
                        *final(self),
                        cpu_id,
                        timestamp,
                        EventView::TraceMarkEnd { task: task@ },
                        status,
                    )
                },
            *final(final(self).storage) == *final(old(self).storage),
            *final(final(self).state) == *final(old(self).state),
            final(final(self).cpu_buffers)@ == final(old(self).cpu_buffers)@,
            forall|i: int|
                0 <= i < old(self).cpu_count ==> final((
                #[trigger] final(self).cpu_buffers@[i]).bytes)@ == final(
                    old(self).cpu_buffers@[i].bytes)@,
    {
        let cpu_id = self.platform.cpu_id();
        let timestamp = self.platform.now_ns();
        assert(platform::may_read(self.platform, cpu_id, timestamp));
        let event = TraceEvent::TraceMarkEnd { task };
        self.append_for_current_cpu(cpu_id, event, timestamp)
    }

    /// Creates a read-only snapshot view of the active session. It does not stop
    /// the session or copy records.
    pub fn snapshot(&self) -> (snapshot: TraceSnapshot<'_>)
        requires
            self.wf(),
        ensures
            snapshot.count() == self.cpu_count,
            forall|i: int| 0 <= i < self.cpu_count ==> snapshot.cpu(i) == self.cpu(i),
    {
        TraceSnapshot {
            cpu_count: self.cpu_count,
            cpus: &self.state.cpus[0..self.cpu_count],
            buffers: &*self.cpu_buffers,
        }
    }
}

/// Read-only view of all per-CPU streams in a trace session.
pub struct TraceSnapshot<'a> {
    /// Number of active CPU streams in this snapshot.
    cpu_count: usize,
    /// Per-CPU state used to locate readable records.
    cpus: &'a [CpuState],
    /// Per-CPU backing buffers containing binary records.
    buffers: &'a [CpuBuffer<'a>],
}

impl<'a> TraceSnapshot<'a> {
    /// Number of CPU streams.
    pub closed spec fn count(self) -> usize {
        self.cpu_count
    }

    /// One CPU of the snapshot.
    pub closed spec fn cpu(self, i: int) -> CpuRing {
        CpuRing { state: self.cpus@[i], ring: self.buffers@[i].bytes@ }
    }

    /// There is a state and a buffer for each stream.
    #[verifier::type_invariant]
    spec fn complete(self) -> bool {
        self.cpu_count == self.cpus@.len() == self.buffers@.len()
    }

    /// Returns the number of active CPU streams.
    pub fn cpu_count(&self) -> (count: usize)
        ensures
            count == self.count(),
    {
        self.cpu_count
    }

    /// Returns a read-only stream for one CPU.
    ///
    /// # Returns
    ///
    /// Returns `Some(CpuStream)` if `cpu` is within the snapshot CPU count;
    /// otherwise returns `None`.
    pub fn cpu_stream(&self, cpu: usize) -> (stream: Option<CpuStream<'a>>)
        ensures
            match stream {
                Some(stream) => cpu < self.count() && stream@ == self.cpu(cpu as int),
                None => cpu >= self.count(),
            },
    {
        proof {
            use_type_invariant(self);
        }
        if cpu >= self.cpu_count {
            return None;
        }
        Some(CpuStream { state: &self.cpus[cpu], bytes: &*self.buffers[cpu].bytes })
    }
}

/// Read-only view of one CPU's records.
pub struct CpuStream<'a> {
    /// Per-CPU state used to create an iterator.
    state: &'a CpuState,
    /// Per-CPU backing buffer.
    bytes: &'a [u8],
}

impl<'a> View for CpuStream<'a> {
    type V = CpuRing;

    closed spec fn view(&self) -> CpuRing {
        CpuRing { state: *self.state, ring: self.bytes@ }
    }
}

impl<'a> CpuStream<'a> {
    /// Returns a cursor over readable non-padding records, starting at this
    /// CPU's oldest readable record.
    pub fn records(&self) -> (iter: RecordIter<'a>)
        ensures
            iter.records() == self@.records(),
    {
        RecordIter::new(self.bytes, self.state.read_pos, self.state.used)
    }
}

/// What is written into a session is read from it.
///
/// After an event was written on a CPU of a session, the CPU shows the records
/// it had, without the oldest ones that had to make room, and then the record of
/// the event, which decodes to the timestamp, the CPU id, the sequence number and
/// the event. All other CPUs show the records they had.
pub proof fn law_read_session_after_append<'a, P, const MAX_CPUS: usize>(
    before: TraceSession<'a, P, MAX_CPUS>,
    after: TraceSession<'a, P, MAX_CPUS>,
    cpu_id: u32,
    timestamp: u64,
    event: EventView,
)
    requires
        before.wf(),
        before.appended(after, cpu_id, timestamp, event, AppendStatus::Written),
    ensures
        cpu_id < before.cpu_count,
        ({
            let cpu = before.cpu(cpu_id as int);
            let seq = cpu.state.per_cpu_seq;
            let lost = ring::lost_records(cpu, append::space_needed(cpu, cpu_id, event));
            let record = append::event_record(cpu_id, seq, timestamp, event);
            &&& 0 <= lost <= cpu.records().len()
            &&& after.cpu(cpu_id as int).records() == cpu.records().skip(lost).push(record)
            &&& record.decoded() == Some(
                DecodedView { timestamp, cpu_id, seq, event: event.as_read() },
            )
            &&& forall|i: int|
                0 <= i < before.cpu_count && i != cpu_id ==> (#[trigger] after.cpu(i)).records()
                    == before.cpu(i).records()
        }),
{
    append::law_read_after_append(
        before.cpu(cpu_id as int),
        before.mode,
        cpu_id,
        timestamp,
        event,
    );
}

/// What an append attempt on a session returns.
///
/// It is refused for the CPU just if there is no such CPU in the session. On a CPU of
/// the session, it is refused as reentrant while the CPU is appending, as too large
/// if the payload exceeds 512 bytes or the record the buffer, and for want of room
/// if the record does not fit into the free bytes and old records may not make room.
/// In all other cases it is written. No other CPU changes.
pub proof fn law_session_append_decides<'a, P, const MAX_CPUS: usize>(
    before: TraceSession<'a, P, MAX_CPUS>,
    after: TraceSession<'a, P, MAX_CPUS>,
    cpu_id: u32,
    timestamp: u64,
    event: EventView,
    status: AppendStatus,
    total: int,
)
    requires
        before.wf(),
        before.appended(after, cpu_id, timestamp, event, status),
        ring::is_record_len(total, append::payload_size(event)),
    ensures
        ({
            let cpu = before.cpu(cpu_id as int);
            status == (if cpu_id >= before.cpu_count {
                AppendStatus::Dropped(DropReason::InvalidCpu)
            } else if cpu.state.writer_active {
                AppendStatus::Dropped(DropReason::Reentrant)
            } else if append::payload_size(event) > 512 || total > cpu.ring.len() {
                AppendStatus::Dropped(DropReason::RecordTooLarge)
            } else if before.mode == BufferMode::Overwrite || ring::fits_free(cpu, total) {
                AppendStatus::Written
            } else {
                AppendStatus::Dropped(DropReason::BufferFull)
            })
        }),
        after.cpu_count == before.cpu_count,
        after.mode == before.mode,
        forall|i: int|
            0 <= i < before.cpu_count && i != cpu_id ==> #[trigger] after.cpu(i) == before.cpu(i),
{
    if cpu_id < before.cpu_count {
        append::law_append_decides(
            before.cpu(cpu_id as int),
            before.mode,
            cpu_id,
            timestamp,
            event,
            total,
        );
    }
}

/// An event for which a CPU of a session has enough free bytes is written, and
/// nothing is lost.
///
/// In either mode, a reader finds what it found before and then the event, with the
/// timestamp, the CPU id and the next sequence number, and the drop counter stays.
pub proof fn law_session_append_fits<'a, P, const MAX_CPUS: usize>(
    before: TraceSession<'a, P, MAX_CPUS>,
    after: TraceSession<'a, P, MAX_CPUS>,
    cpu_id: u32,
    timestamp: u64,
    event: EventView,
    status: AppendStatus,
    total: int,
)
    requires
        before.wf(),
        before.appended(after, cpu_id, timestamp, event, status),
        cpu_id < before.cpu_count,
        !before.cpu(cpu_id as int).state.writer_active,
        ring::is_record_len(total, append::payload_size(event)),
        append::payload_size(event) <= 512,
        total <= before.cpu(cpu_id as int).ring.len(),
        ring::fits_free(before.cpu(cpu_id as int), total),
    ensures
        ({
            let old_cpu = before.cpu(cpu_id as int);
            let new_cpu = after.cpu(cpu_id as int);
            &&& status == AppendStatus::Written
            &&& new_cpu.records().len() == old_cpu.records().len() + 1
            &&& new_cpu.records().drop_last() == old_cpu.records()
            &&& new_cpu.records().last().decoded() == Some(
                DecodedView {
                    timestamp,
                    cpu_id,
                    seq: old_cpu.state.per_cpu_seq,
                    event: event.as_read(),
                },
            )
            &&& new_cpu.state.dropped == old_cpu.state.dropped
        }),
{
    append::law_append_fits(
        before.cpu(cpu_id as int),
        before.mode,
        cpu_id,
        timestamp,
        event,
        total,
    );
}

/// When a session can be started, and what each refusal means.
///
/// No other session may be active, the states must suffice for the CPUs, there must
/// be one buffer for each CPU, and each must have at least 32 bytes. Each of these
/// decides alone, in this order.
pub proof fn law_start_decides(
    active: bool,
    cpu_count: usize,
    max_cpus: usize,
    buffers: Seq<CpuBuffer<'_>>,
)
    ensures
        ({
            let error = start_error(active, cpu_count, max_cpus, buffers);
            &&& error == Some(TraceError::SessionAlreadyActive) <==> active
            &&& error == Some(TraceError::TooManyCpus) <==> !active && cpu_count > max_cpus
            &&& error == Some(TraceError::CpuBufferCountMismatch) <==> !active && cpu_count
                <= max_cpus && buffers.len() != cpu_count
            &&& error is None <==> !active && cpu_count <= max_cpus && buffers.len() == cpu_count
                && forall|i: int|
                0 <= i < buffers.len() ==> (#[trigger] buffers[i]).bytes@.len() >= 32
            &&& error != Some(TraceError::InvalidCpuCount)
        }),
{
}

} // verus!
