//! `ostrace` is a trace record core for Rust OS kernels.
//!
//! The operating system provides the memory: either one region for a
//! self-describing trace image ([`TraceImage`]), or library-level storage,
//! session-level CPU state and one ring buffer per CPU ([`TraceSession`]). Events
//! are appended to per-CPU ring buffers as compact binary records, which can be
//! read at any time and exported as text.
//!
//! Every function has a contract that Verus proves:
//!
//! - [`bytes`], [`record`] and [`payload`] give the binary formats, and prove that
//!   what is encoded is decoded again.
//! - [`ring`], [`stream`] and [`append`] give the ring of one CPU: what an append
//!   does to it, and what a reader finds in it.
//! - [`session`] keeps the rings in separate buffers; [`layout`], [`image`] and
//!   [`snapshot`] keep them in one region of memory, and find it again in a dump.
//! - [`history`] states what holds after any number of appends.
//! - [`text`], [`export`] and [`args`] turn records into text.

pub mod append;
pub mod args;
pub mod bytes;
pub mod export;
pub mod history;
pub mod image;
pub mod layout;
pub mod payload;
pub mod platform;
pub mod record;
pub mod ring;
pub mod session;
pub mod snapshot;
pub mod stream;
pub mod task;
pub mod text;

pub use crate::image::{TraceImage, TraceImageConfig};
pub use crate::layout::{
    TraceImageError, TRACE_IMAGE_CONTAINER_VERSION_MAJOR, TRACE_IMAGE_CONTAINER_VERSION_MINOR,
    TRACE_IMAGE_MAGIC, TRACE_RECORD_FORMAT_VERSION_MAJOR, TRACE_RECORD_FORMAT_VERSION_MINOR,
};
pub use crate::payload::{DecodedRecord, RawRecord};
pub use crate::platform::TracePlatform;
pub use crate::record::{RecordHeader, RecordKind, RECORD_HEADER_SIZE};
pub use crate::ring::{AppendStatus, BufferMode, CpuState, DropReason};
pub use crate::session::{
    CpuBuffer, CpuStream, GlobalState, SessionConfig, TraceConfig, TraceError, TraceRecorder,
    TraceSession, TraceSessionStorage, TraceSnapshot, TraceStorage,
};
pub use crate::snapshot::{TraceImageCpuStream, TraceImageSnapshot};
pub use crate::stream::RecordIter;
pub use crate::task::{OffCpuState, OwnedTaskRef, TaskRef};
