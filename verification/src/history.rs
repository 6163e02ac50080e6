//! Laws over whole histories: what holds after any number of appends.
//!
//! A history of one CPU is a sequence of steps. Histories of sessions and of
//! images are sequences of calls, and come down to one history per CPU.

use vstd::prelude::*;

use crate::append;
use crate::image;
use crate::image::TraceImage;
use crate::payload::{DecodedView, EventView, RecordView};
use crate::ring;
use crate::ring::{AppendStatus, BufferMode, CpuRing, CpuState, DropReason};
use crate::session::TraceSession;

verus! {

/// One thing that happens to a CPU.
pub ghost enum Step {
    /// An append attempt.
    Append { timestamp: u64, event: EventView },
    /// Another append on the CPU begins or ends: while it is in progress, append
    /// attempts are reentrant.
    Writer(bool),
}

/// A CPU after one step.
pub open spec fn stepped(cpu: CpuRing, mode: BufferMode, cpu_id: u32, step: Step) -> CpuRing {
    match step {
        Step::Append { timestamp, event } => append::append_outcome(
            cpu,
            mode,
            cpu_id,
            timestamp,
            event,
        ).0,
        Step::Writer(active) => CpuRing {
            state: CpuState { writer_active: active, ..cpu.state },
            ring: cpu.ring,
        },
    }
}

/// A CPU after a sequence of steps.
pub open spec fn run(cpu: CpuRing, mode: BufferMode, cpu_id: u32, steps: Seq<Step>) -> CpuRing
    decreases steps.len(),
{
    if steps.len() == 0 {
        cpu
    } else {
        stepped(run(cpu, mode, cpu_id, steps.drop_last()), mode, cpu_id, steps.last())
    }
}

/// Number of append attempts.
pub open spec fn attempts(steps: Seq<Step>) -> nat
    decreases steps.len(),
{
    if steps.len() == 0 {
        0
    } else {
        attempts(steps.drop_last()) + (if steps.last() is Append {
            1nat
        } else {
            0nat
        })
    }
}

/// Number of append attempts that are not reentrant.
pub open spec fn numbered(cpu: CpuRing, mode: BufferMode, cpu_id: u32, steps: Seq<Step>) -> nat
    decreases steps.len(),
{
    if steps.len() == 0 {
        0
    } else {
        let front = steps.drop_last();
        numbered(cpu, mode, cpu_id, front) + (if steps.last() is Append && !run(
            cpu,
            mode,
            cpu_id,
            front,
        ).state.writer_active {
            1nat
        } else {
            0nat
        })
    }
}

/// The records that were written, in their order.
pub open spec fn written(
    cpu: CpuRing,
    mode: BufferMode,
    cpu_id: u32,
    steps: Seq<Step>,
) -> Seq<RecordView>
    decreases steps.len(),
{
    if steps.len() == 0 {
        Seq::empty()
    } else {
        let front = steps.drop_last();
        let before = run(cpu, mode, cpu_id, front);
        let earlier = written(cpu, mode, cpu_id, front);
        match steps.last() {
            Step::Append { timestamp, event } => if append::append_outcome(
                before,
                mode,
                cpu_id,
                timestamp,
                event,
            ).1 == AppendStatus::Written {
                earlier.push(
                    append::event_record(cpu_id, before.state.per_cpu_seq, timestamp, event),
                )
            } else {
                earlier
            },
            Step::Writer(active) => earlier,
        }
    }
}

/// Number of padding records that had to make room.
pub open spec fn lost_paddings(
    cpu: CpuRing,
    mode: BufferMode,
    cpu_id: u32,
    steps: Seq<Step>,
) -> nat
    decreases steps.len(),
{
    if steps.len() == 0 {
        0
    } else {
        let front = steps.drop_last();
        let before = run(cpu, mode, cpu_id, front);
        let earlier = lost_paddings(cpu, mode, cpu_id, front);
        match steps.last() {
            Step::Append { timestamp, event } => if append::append_outcome(
                before,
                mode,
                cpu_id,
                timestamp,
                event,
            ).1 == AppendStatus::Written {
                earlier + ring::paddings_of(
                    ring::evicted(before, append::space_needed(before, cpu_id, event)),
                )
            } else {
                earlier
            },
            Step::Writer(active) => earlier,
        }
    }
}

/// The ring invariant holds at every point of a history.
pub proof fn law_history_keeps_wf(
    cpu: CpuRing,
    mode: BufferMode,
    cpu_id: u32,
    steps: Seq<Step>,
)
    requires
        cpu.wf(),
    ensures
        run(cpu, mode, cpu_id, steps).wf(),
        run(cpu, mode, cpu_id, steps).cap() == cpu.cap(),
    decreases steps.len(),
{
    if steps.len() > 0 {
        law_history_keeps_wf(cpu, mode, cpu_id, steps.drop_last());
        let before = run(cpu, mode, cpu_id, steps.drop_last());
        if let Step::Append { timestamp, event } = steps.last() {
            append::law_append_keeps_wf(before, mode, cpu_id, timestamp, event);
        }
    }
}

/// Every lost record is counted.
///
/// Over a history, the drop counter grows by the number of append attempts, less
/// the number of records that are readable now and were not at the start, plus
/// the number of padding records that had to make room. So a CPU that started
/// empty has dropped at least as many records as attempts are not readable: each
/// of them was refused, reentrant or overwritten. It holds as long as the counter
/// has not reached its greatest value.
pub proof fn law_history_counts_drops(
    cpu: CpuRing,
    mode: BufferMode,
    cpu_id: u32,
    steps: Seq<Step>,
)
    requires
        cpu.wf(),
        run(cpu, mode, cpu_id, steps).state.dropped < u64::MAX,
    ensures
        ({
            let after = run(cpu, mode, cpu_id, steps);
            after.state.dropped + after.records().len() == cpu.state.dropped + cpu.records().len()
                + attempts(steps) + lost_paddings(cpu, mode, cpu_id, steps)
        }),
    decreases steps.len(),
{
    if steps.len() > 0 {
        let front = steps.drop_last();
        let before = run(cpu, mode, cpu_id, front);
        let after = run(cpu, mode, cpu_id, steps);
        law_history_keeps_wf(cpu, mode, cpu_id, front);
        match steps.last() {
            Step::Append { timestamp, event } => {
                let status = append::append_outcome(before, mode, cpu_id, timestamp, event).1;
                if status == AppendStatus::Written {
                    let gone = ring::evicted(before, append::space_needed(before, cpu_id, event));
                    append::law_read_after_append(before, mode, cpu_id, timestamp, event);
                    ring::law_dropped_after(before.state.dropped, gone);
                } else {
                    append::law_dropped_append(before, mode, cpu_id, timestamp, event);
                }
                law_history_counts_drops(cpu, mode, cpu_id, front);
            },
            Step::Writer(active) => {
                assert(after.records() == before.records());
                law_history_counts_drops(cpu, mode, cpu_id, front);
            },
        }
    }
}

/// Append attempts are numbered, reentrant ones are not.
///
/// Over a history, the next sequence number grows by one with each attempt that
/// is not reentrant, whether or not it is written.
pub proof fn law_history_numbers(
    cpu: CpuRing,
    mode: BufferMode,
    cpu_id: u32,
    steps: Seq<Step>,
)
    requires
        cpu.wf(),
        cpu.state.per_cpu_seq + numbered(cpu, mode, cpu_id, steps) <= u64::MAX,
    ensures
        run(cpu, mode, cpu_id, steps).state.per_cpu_seq == cpu.state.per_cpu_seq + numbered(
            cpu,
            mode,
            cpu_id,
            steps,
        ),
    decreases steps.len(),
{
    if steps.len() > 0 {
        let front = steps.drop_last();
        let before = run(cpu, mode, cpu_id, front);
        law_history_keeps_wf(cpu, mode, cpu_id, front);
        law_history_numbers(cpu, mode, cpu_id, front);
        if let Step::Append { timestamp, event } = steps.last() {
            if append::append_outcome(before, mode, cpu_id, timestamp, event).1
                == AppendStatus::Written {
                append::law_read_after_append(before, mode, cpu_id, timestamp, event);
            } else {
                append::law_dropped_append(before, mode, cpu_id, timestamp, event);
            }
        }
    }
}

/// A written event carries the number of its attempt.
///
/// If step `i` of a history is an append that is written, the newest record
/// after it decodes to the event, with the timestamp, the CPU id, and as its
/// sequence number the number of attempts before it that were not reentrant.
#[verifier::spinoff_prover]
pub proof fn law_history_record(
    cpu: CpuRing,
    mode: BufferMode,
    cpu_id: u32,
    steps: Seq<Step>,
    i: int,
    timestamp: u64,
    event: EventView,
)
    requires
        cpu.wf(),
        cpu.state.per_cpu_seq == 0,
        0 <= i < steps.len(),
        steps[i] == (Step::Append { timestamp, event }),
        append::append_outcome(
            run(cpu, mode, cpu_id, steps.take(i)),
            mode,
            cpu_id,
            timestamp,
            event,
        ).1 == AppendStatus::Written,
        numbered(cpu, mode, cpu_id, steps.take(i)) <= u64::MAX,
    ensures
        ({
            let after = run(cpu, mode, cpu_id, steps.take(i + 1));
            &&& after.records().len() > 0
            &&& after.records().last().decoded() == Some(
                DecodedView {
                    timestamp,
                    cpu_id,
                    seq: numbered(cpu, mode, cpu_id, steps.take(i)) as u64,
                    event: event.as_read(),
                },
            )
        }),
{
    let front = steps.take(i);
    assert(steps.take(i + 1).drop_last() =~= front);
    law_history_keeps_wf(cpu, mode, cpu_id, front);
    law_history_numbers(cpu, mode, cpu_id, front);
    let before = run(cpu, mode, cpu_id, front);
    lemma_newest_is_event(before, mode, cpu_id, timestamp, event);
    assert(steps.take(i + 1).last() == Step::Append { timestamp, event });
}

/// The newest record after a written append is that of the event.
proof fn lemma_newest_is_event(
    before: CpuRing,
    mode: BufferMode,
    cpu_id: u32,
    timestamp: u64,
    event: EventView,
)
    requires
        before.wf(),
        append::append_outcome(before, mode, cpu_id, timestamp, event).1 == AppendStatus::Written,
    ensures
        ({
            let after = append::append_outcome(before, mode, cpu_id, timestamp, event).0;
            &&& after.records().len() > 0
            &&& after.records().last().decoded() == Some(
                DecodedView {
                    timestamp,
                    cpu_id,
                    seq: before.state.per_cpu_seq,
                    event: event.as_read(),
                },
            )
        }),
{
    append::law_read_after_append(before, mode, cpu_id, timestamp, event);
}

/// The end of a sequence, without some of its front and with one more behind it,
/// is the end of the sequence with one more behind it.
proof fn lemma_suffix(all: Seq<RecordView>, now: Seq<RecordView>, lost: int, record: RecordView)
    requires
        now.len() <= all.len(),
        now == all.skip(all.len() - now.len()),
        0 <= lost <= now.len(),
    ensures
        ({
            let more = all.push(record);
            let next = now.skip(lost).push(record);
            next == more.skip(more.len() - next.len())
        }),
{
    let more = all.push(record);
    let next = now.skip(lost).push(record);
    assert(next =~= more.skip(more.len() - next.len()));
}

/// A reader finds the newest of the records that were written, in their order,
/// with none left out between them.
pub proof fn law_history_keeps_newest(
    cpu: CpuRing,
    mode: BufferMode,
    cpu_id: u32,
    steps: Seq<Step>,
)
    requires
        cpu.wf(),
    ensures
        ({
            let all = cpu.records() + written(cpu, mode, cpu_id, steps);
            let now = run(cpu, mode, cpu_id, steps).records();
            &&& now.len() <= all.len()
            &&& now == all.skip(all.len() - now.len())
        }),
    decreases steps.len(),
{
    let all = cpu.records() + written(cpu, mode, cpu_id, steps);
    let now = run(cpu, mode, cpu_id, steps).records();
    if steps.len() == 0 {
        assert(all =~= cpu.records());
        assert(all.skip(0) =~= all);
    } else {
        let front = steps.drop_last();
        let before = run(cpu, mode, cpu_id, front);
        let earlier = cpu.records() + written(cpu, mode, cpu_id, front);
        law_history_keeps_wf(cpu, mode, cpu_id, front);
        law_history_keeps_newest(cpu, mode, cpu_id, front);
        match steps.last() {
            Step::Append { timestamp, event } => {
                if append::append_outcome(before, mode, cpu_id, timestamp, event).1
                    == AppendStatus::Written {
                    append::law_read_after_append(before, mode, cpu_id, timestamp, event);
                    let record = append::event_record(
                        cpu_id,
                        before.state.per_cpu_seq,
                        timestamp,
                        event,
                    );
                    let lost = ring::lost_records(
                        before,
                        append::space_needed(before, cpu_id, event),
                    );
                    lemma_suffix(earlier, before.records(), lost, record);
                    assert(all =~= earlier.push(record));
                } else {
                    append::law_dropped_append(before, mode, cpu_id, timestamp, event);
                }
            },
            Step::Writer(active) => {
                assert(now == before.records());
            },
        }
    }
}

/// In [`BufferMode::StopOnFull`] a reader finds every record that was written.
pub proof fn law_history_keeps_all(
    cpu: CpuRing,
    mode: BufferMode,
    cpu_id: u32,
    steps: Seq<Step>,
)
    requires
        cpu.wf(),
        mode == BufferMode::StopOnFull,
    ensures
        run(cpu, mode, cpu_id, steps).records() == cpu.records() + written(
            cpu,
            mode,
            cpu_id,
            steps,
        ),
    decreases steps.len(),
{
    let all = cpu.records() + written(cpu, mode, cpu_id, steps);
    let now = run(cpu, mode, cpu_id, steps).records();
    if steps.len() == 0 {
        assert(all =~= cpu.records());
    } else {
        let front = steps.drop_last();
        let before = run(cpu, mode, cpu_id, front);
        law_history_keeps_wf(cpu, mode, cpu_id, front);
        law_history_keeps_all(cpu, mode, cpu_id, front);
        match steps.last() {
            Step::Append { timestamp, event } => {
                if append::append_outcome(before, mode, cpu_id, timestamp, event).1
                    == AppendStatus::Written {
                    append::law_read_after_append(before, mode, cpu_id, timestamp, event);
                    assert(before.records().skip(0) =~= before.records());
                    assert(now =~= all);
                } else {
                    append::law_dropped_append(before, mode, cpu_id, timestamp, event);
                }
            },
            Step::Writer(active) => {
                assert(now == before.records());
            },
        }
    }
}

/// Once a record was written, a reader finds some record ever after.
pub proof fn law_history_not_empty(
    cpu: CpuRing,
    mode: BufferMode,
    cpu_id: u32,
    steps: Seq<Step>,
)
    requires
        cpu.wf(),
        cpu.records().len() + written(cpu, mode, cpu_id, steps).len() > 0,
    ensures
        run(cpu, mode, cpu_id, steps).records().len() > 0,
    decreases steps.len(),
{
    if steps.len() > 0 {
        let front = steps.drop_last();
        let before = run(cpu, mode, cpu_id, front);
        law_history_keeps_wf(cpu, mode, cpu_id, front);
        match steps.last() {
            Step::Append { timestamp, event } => {
                if append::append_outcome(before, mode, cpu_id, timestamp, event).1
                    == AppendStatus::Written {
                    append::law_read_after_append(before, mode, cpu_id, timestamp, event);
                } else {
                    law_history_not_empty(cpu, mode, cpu_id, front);
                    append::law_dropped_append(before, mode, cpu_id, timestamp, event);
                }
            },
            Step::Writer(active) => {
                law_history_not_empty(cpu, mode, cpu_id, front);
                assert(run(cpu, mode, cpu_id, steps).records() == before.records());
            },
        }
    }
}

/// The sequence numbers of the readable records strictly increase at every point
/// of a history, as long as there are numbers left.
pub proof fn law_history_in_order(
    cpu: CpuRing,
    mode: BufferMode,
    cpu_id: u32,
    steps: Seq<Step>,
)
    requires
        cpu.wf(),
        append::in_order(cpu),
        cpu.state.per_cpu_seq + numbered(cpu, mode, cpu_id, steps) <= u64::MAX,
    ensures
        append::in_order(run(cpu, mode, cpu_id, steps)),
    decreases steps.len(),
{
    if steps.len() > 0 {
        let front = steps.drop_last();
        let before = run(cpu, mode, cpu_id, front);
        law_history_keeps_wf(cpu, mode, cpu_id, front);
        law_history_in_order(cpu, mode, cpu_id, front);
        law_history_numbers(cpu, mode, cpu_id, front);
        match steps.last() {
            Step::Append { timestamp, event } => {
                if before.state.writer_active {
                    append::law_dropped_append(before, mode, cpu_id, timestamp, event);
                } else {
                    append::law_append_keeps_order(before, mode, cpu_id, timestamp, event);
                }
            },
            Step::Writer(active) => {
                assert(run(cpu, mode, cpu_id, steps).records() == before.records());
            },
        }
    }
}

/// An append call: the CPU and the time that the platform gave, and the event.
pub ghost struct Call {
    /// CPU that the platform named.
    pub cpu_id: u32,
    /// Time that the platform gave.
    pub timestamp: u64,
    /// What happened.
    pub event: EventView,
}

/// The calls on one CPU, as its steps.
pub open spec fn steps_of(calls: Seq<Call>, cpu: int) -> Seq<Step>
    decreases calls.len(),
{
    if calls.len() == 0 {
        Seq::empty()
    } else {
        let earlier = steps_of(calls.drop_last(), cpu);
        let call = calls.last();
        if call.cpu_id == cpu {
            earlier.push(Step::Append { timestamp: call.timestamp, event: call.event })
        } else {
            earlier
        }
    }
}

/// The status that the last call of a history must return, when the CPU that it
/// is on was `start` before the first call.
pub open spec fn due_status(
    start: CpuRing,
    count: usize,
    mode: BufferMode,
    calls: Seq<Call>,
) -> AppendStatus {
    let call = calls.last();
    if call.cpu_id >= count {
        AppendStatus::Dropped(DropReason::InvalidCpu)
    } else {
        append::append_outcome(
            run(start, mode, call.cpu_id, steps_of(calls.drop_last(), call.cpu_id as int)),
            mode,
            call.cpu_id,
            call.timestamp,
            call.event,
        ).1
    }
}

/// Each of the calls leads from one session to the next, and returns its status.
pub open spec fn session_history<'a, P, const MAX_CPUS: usize>(
    sessions: Seq<TraceSession<'a, P, MAX_CPUS>>,
    calls: Seq<Call>,
    statuses: Seq<AppendStatus>,
) -> bool {
    &&& sessions.len() == calls.len() + 1
    &&& statuses.len() == calls.len()
    &&& forall|i: int|
        0 <= i < calls.len() ==> sessions[i].appended(
            sessions[i + 1],
            (#[trigger] calls[i]).cpu_id,
            calls[i].timestamp,
            calls[i].event,
            statuses[i],
        )
}

/// Each of the calls leads from one image to the next, and returns its status.
pub open spec fn image_history<'a, P>(
    images: Seq<TraceImage<'a, P>>,
    calls: Seq<Call>,
    statuses: Seq<AppendStatus>,
) -> bool {
    &&& images.len() == calls.len() + 1
    &&& statuses.len() == calls.len()
    &&& forall|i: int|
        0 <= i < calls.len() ==> images[i].appended(
            images[i + 1],
            (#[trigger] calls[i]).cpu_id,
            calls[i].timestamp,
            calls[i].event,
            statuses[i],
        )
}

/// The steps of a CPU after one more call.
proof fn lemma_one_more(start: CpuRing, mode: BufferMode, calls: Seq<Call>, i: int, c: int)
    requires
        0 <= i < calls.len(),
    ensures
        ({
            let before = run(start, mode, c as u32, steps_of(calls.take(i), c));
            let after = run(start, mode, c as u32, steps_of(calls.take(i + 1), c));
            after == (if calls[i].cpu_id == c {
                append::append_outcome(
                    before,
                    mode,
                    calls[i].cpu_id,
                    calls[i].timestamp,
                    calls[i].event,
                ).0
            } else {
                before
            })
        }),
{
    let more = calls.take(i + 1);
    assert(more.drop_last() =~= calls.take(i));
    assert(more.last() == calls[i]);
    let steps = steps_of(more, c);
    if calls[i].cpu_id == c {
        assert(steps.drop_last() =~= steps_of(calls.take(i), c));
    }
}

/// A call on a CPU is one more step of it, and a call on another is none.
proof fn lemma_session_step<'a, P, const MAX_CPUS: usize>(
    sessions: Seq<TraceSession<'a, P, MAX_CPUS>>,
    calls: Seq<Call>,
    statuses: Seq<AppendStatus>,
    i: int,
    c: int,
)
    requires
        session_history(sessions, calls, statuses),
        0 <= i < calls.len(),
    ensures
        sessions[i + 1].cpu_count == sessions[i].cpu_count,
        sessions[i + 1].mode == sessions[i].mode,
        0 <= c < sessions[i].cpu_count && calls[i].cpu_id != c ==> sessions[i + 1].cpu(c)
            == sessions[i].cpu(c),
        0 <= c < sessions[i].cpu_count && calls[i].cpu_id == c ==> (sessions[i + 1].cpu(c), statuses[i])
            == append::append_outcome(
            sessions[i].cpu(c),
            sessions[i].mode,
            calls[i].cpu_id,
            calls[i].timestamp,
            calls[i].event,
        ),
        calls[i].cpu_id >= sessions[i].cpu_count ==> statuses[i] == AppendStatus::Dropped(
            DropReason::InvalidCpu,
        ),
{
    assert(sessions[i].appended(
        sessions[i + 1],
        calls[i].cpu_id,
        calls[i].timestamp,
        calls[i].event,
        statuses[i],
    ));
}

/// After `n` calls a CPU is as the calls on it left it.
proof fn lemma_session_cpu<'a, P, const MAX_CPUS: usize>(
    sessions: Seq<TraceSession<'a, P, MAX_CPUS>>,
    calls: Seq<Call>,
    statuses: Seq<AppendStatus>,
    n: int,
    c: int,
)
    requires
        session_history(sessions, calls, statuses),
        0 <= n <= calls.len(),
    ensures
        sessions[n].cpu_count == sessions[0].cpu_count,
        sessions[n].mode == sessions[0].mode,
        0 <= c < sessions[0].cpu_count ==> sessions[n].cpu(c) == run(
            sessions[0].cpu(c),
            sessions[0].mode,
            c as u32,
            steps_of(calls.take(n), c),
        ),
    decreases n,
{
    if n > 0 {
        lemma_session_cpu(sessions, calls, statuses, n - 1, c);
        lemma_session_step(sessions, calls, statuses, n - 1, c);
        lemma_one_more(sessions[0].cpu(c), sessions[0].mode, calls, n - 1, c);
    }
}

/// A session is one history per CPU: each CPU is as the calls on it left it, and
/// each call returns what the history of its CPU asks for. CPUs do not disturb
/// each other.
pub proof fn law_session_history<'a, P, const MAX_CPUS: usize>(
    sessions: Seq<TraceSession<'a, P, MAX_CPUS>>,
    calls: Seq<Call>,
    statuses: Seq<AppendStatus>,
)
    requires
        session_history(sessions, calls, statuses),
    ensures
        sessions.last().cpu_count == sessions[0].cpu_count,
        sessions.last().mode == sessions[0].mode,
        forall|c: int|
            0 <= c < sessions[0].cpu_count ==> #[trigger] sessions.last().cpu(c) == run(
                sessions[0].cpu(c),
                sessions[0].mode,
                c as u32,
                steps_of(calls, c),
            ),
        forall|i: int|
            0 <= i < calls.len() ==> #[trigger] statuses[i] == due_status(
                sessions[0].cpu(calls[i].cpu_id as int),
                sessions[0].cpu_count,
                sessions[0].mode,
                calls.take(i + 1),
            ),
{
    let n = calls.len() as int;
    assert(calls.take(n) =~= calls);
    lemma_session_cpu(sessions, calls, statuses, n, 0);
    assert forall|c: int| 0 <= c < sessions[0].cpu_count implies #[trigger] sessions.last().cpu(
        c,
    ) == run(
        sessions[0].cpu(c),
        sessions[0].mode,
        c as u32,
        steps_of(calls, c),
    ) by {
        lemma_session_cpu(sessions, calls, statuses, n, c);
    }
    assert forall|i: int| 0 <= i < calls.len() implies #[trigger] statuses[i] == due_status(
        sessions[0].cpu(calls[i].cpu_id as int),
        sessions[0].cpu_count,
        sessions[0].mode,
        calls.take(i + 1),
    ) by {
        let c = calls[i].cpu_id as int;
        assert(calls.take(i + 1).drop_last() =~= calls.take(i));
        assert(calls.take(i + 1).last() == calls[i]);
        lemma_session_cpu(sessions, calls, statuses, i, c);
        lemma_session_step(sessions, calls, statuses, i, c);
    }
}

/// A call on a CPU is one more step of it, and a call on another is none.
proof fn lemma_image_step<'a, P>(
    images: Seq<TraceImage<'a, P>>,
    calls: Seq<Call>,
    statuses: Seq<AppendStatus>,
    i: int,
    c: int,
)
    requires
        image_history(images, calls, statuses),
        0 <= i < calls.len(),
    ensures
        images[i + 1].count() == images[i].count(),
        images[i + 1].buffer_mode() == images[i].buffer_mode(),
        0 <= c < images[i].count() && calls[i].cpu_id != c ==> images[i + 1].cpu(c)
            == images[i].cpu(c),
        0 <= c < images[i].count() && calls[i].cpu_id == c ==> (images[i + 1].cpu(c), statuses[i])
            == append::append_outcome(
            images[i].cpu(c),
            images[i].buffer_mode(),
            calls[i].cpu_id,
            calls[i].timestamp,
            calls[i].event,
        ),
        calls[i].cpu_id >= images[i].count() ==> statuses[i] == AppendStatus::Dropped(
            DropReason::InvalidCpu,
        ),
{
    assert(images[i].appended(
        images[i + 1],
        calls[i].cpu_id,
        calls[i].timestamp,
        calls[i].event,
        statuses[i],
    ));
}

/// After `n` calls a CPU is as the calls on it left it.
proof fn lemma_image_cpu<'a, P>(
    images: Seq<TraceImage<'a, P>>,
    calls: Seq<Call>,
    statuses: Seq<AppendStatus>,
    n: int,
    c: int,
)
    requires
        image_history(images, calls, statuses),
        0 <= n <= calls.len(),
    ensures
        images[n].count() == images[0].count(),
        images[n].buffer_mode() == images[0].buffer_mode(),
        0 <= c < images[0].count() ==> images[n].cpu(c) == run(
            images[0].cpu(c),
            images[0].buffer_mode(),
            c as u32,
            steps_of(calls.take(n), c),
        ),
    decreases n,
{
    if n > 0 {
        lemma_image_cpu(images, calls, statuses, n - 1, c);
        lemma_image_step(images, calls, statuses, n - 1, c);
        lemma_one_more(images[0].cpu(c), images[0].buffer_mode(), calls, n - 1, c);
    }
}

/// An image is one history per CPU: each CPU is as the calls on it left it, and
/// each call returns what the history of its CPU asks for. CPUs do not disturb
/// each other.
pub proof fn law_image_history<'a, P>(
    images: Seq<TraceImage<'a, P>>,
    calls: Seq<Call>,
    statuses: Seq<AppendStatus>,
)
    requires
        image_history(images, calls, statuses),
    ensures
        images.last().count() == images[0].count(),
        images.last().buffer_mode() == images[0].buffer_mode(),
        forall|c: int|
            0 <= c < images[0].count() ==> #[trigger] images.last().cpu(c) == run(
                images[0].cpu(c),
                images[0].buffer_mode(),
                c as u32,
                steps_of(calls, c),
            ),
        forall|i: int|
            0 <= i < calls.len() ==> #[trigger] statuses[i] == due_status(
                images[0].cpu(calls[i].cpu_id as int),
                images[0].count(),
                images[0].buffer_mode(),
                calls.take(i + 1),
            ),
{
    let n = calls.len() as int;
    assert(calls.take(n) =~= calls);
    lemma_image_cpu(images, calls, statuses, n, 0);
    assert forall|c: int| 0 <= c < images[0].count() implies #[trigger] images.last().cpu(
        c,
    ) == run(
        images[0].cpu(c),
        images[0].buffer_mode(),
        c as u32,
        steps_of(calls, c),
    ) by {
        lemma_image_cpu(images, calls, statuses, n, c);
    }
    assert forall|i: int| 0 <= i < calls.len() implies #[trigger] statuses[i] == due_status(
        images[0].cpu(calls[i].cpu_id as int),
        images[0].count(),
        images[0].buffer_mode(),
        calls.take(i + 1),
    ) by {
        let c = calls[i].cpu_id as int;
        assert(calls.take(i + 1).drop_last() =~= calls.take(i));
        assert(calls.take(i + 1).last() == calls[i]);
        lemma_image_cpu(images, calls, statuses, i, c);
        lemma_image_step(images, calls, statuses, i, c);
    }
}

/// Images and sessions agree.
///
/// If an image and a session start with equal CPUs and the same mode and get the
/// same calls, all calls return the same statuses, and in the end all CPUs are
/// equal, so readers of the image and of the session find the same records.
pub proof fn law_image_and_session_agree<'a, 'b, P, Q, const MAX_CPUS: usize>(
    images: Seq<TraceImage<'a, P>>,
    image_statuses: Seq<AppendStatus>,
    sessions: Seq<TraceSession<'b, Q, MAX_CPUS>>,
    session_statuses: Seq<AppendStatus>,
    calls: Seq<Call>,
)
    requires
        image_history(images, calls, image_statuses),
        session_history(sessions, calls, session_statuses),
        images[0].count() == sessions[0].cpu_count,
        images[0].buffer_mode() == sessions[0].mode,
        forall|c: int|
            0 <= c < images[0].count() ==> #[trigger] images[0].cpu(c) == sessions[0].cpu(c),
    ensures
        image_statuses == session_statuses,
        forall|c: int|
            0 <= c < images[0].count() ==> #[trigger] images.last().cpu(c) == sessions.last().cpu(
                c,
            ),
        forall|c: int|
            0 <= c < images[0].count() ==> (#[trigger] images.last().cpu(c)).records()
                == sessions.last().cpu(c).records(),
{
    law_image_history(images, calls, image_statuses);
    law_session_history(sessions, calls, session_statuses);
    assert forall|i: int| 0 <= i < calls.len() implies #[trigger] image_statuses[i]
        == session_statuses[i] by {
        let c = calls[i].cpu_id as int;
        assert(calls.take(i + 1).last() == calls[i]);
        if c < images[0].count() {
            assert(images[0].cpu(c) == sessions[0].cpu(c));
        }
    }
    assert(image_statuses =~= session_statuses);
    assert forall|c: int| 0 <= c < images[0].count() implies #[trigger] images.last().cpu(c)
        == sessions.last().cpu(c) by {
        assert(images[0].cpu(c) == sessions[0].cpu(c));
        assert(sessions.last().cpu(c) == run(
            sessions[0].cpu(c),
            sessions[0].mode,
            c as u32,
            steps_of(calls, c),
        ));
    }
}

/// When nothing but append attempts happens to a CPU that is not appending, none
/// of them is reentrant.
proof fn lemma_calls_only(
    cpu: CpuRing,
    mode: BufferMode,
    cpu_id: u32,
    calls: Seq<Call>,
    c: int,
)
    requires
        cpu.wf(),
        !cpu.state.writer_active,
    ensures
        ({
            let steps = steps_of(calls, c);
            &&& attempts(steps) == steps.len()
            &&& numbered(cpu, mode, cpu_id, steps) == steps.len()
            &&& !run(cpu, mode, cpu_id, steps).state.writer_active
            &&& steps.len() <= calls.len()
        }),
    decreases calls.len(),
{
    if calls.len() > 0 {
        let call = calls.last();
        let earlier = steps_of(calls.drop_last(), c);
        lemma_calls_only(cpu, mode, cpu_id, calls.drop_last(), c);
        if call.cpu_id == c {
            let steps = steps_of(calls, c);
            assert(steps.drop_last() =~= earlier);
            law_history_keeps_wf(cpu, mode, cpu_id, earlier);
            append::law_append_keeps_wf(
                run(cpu, mode, cpu_id, earlier),
                mode,
                cpu_id,
                call.timestamp,
                call.event,
            );
        }
    }
}

/// What a CPU holds after calls, if it was started as `start`.
///
/// A reader finds the newest of the records that were written on the CPU, in
/// their order, in [`BufferMode::StopOnFull`] all of them, and at least one once
/// there was one. As long as there are numbers left, each record decodes, and
/// their sequence numbers strictly increase. As long as the drop counter has not
/// reached its greatest value, it is at least the number of calls on the CPU less
/// the number of readable records, and is larger just by the padding records that
/// had to make room.
pub open spec fn recorded(
    start: CpuRing,
    mode: BufferMode,
    c: int,
    calls: Seq<Call>,
    now: CpuRing,
) -> bool {
    let steps = steps_of(calls, c);
    let all = written(start, mode, c as u32, steps);
    &&& now.records().len() <= all.len()
    &&& now.records() == all.skip(all.len() - now.records().len())
    &&& mode == BufferMode::StopOnFull ==> now.records() == all
    &&& all.len() > 0 ==> now.records().len() > 0
    &&& calls.len() <= u64::MAX ==> append::in_order(now)
    &&& now.state.dropped < u64::MAX ==> {
        &&& now.state.dropped == steps.len() - now.records().len() + lost_paddings(
            start,
            mode,
            c as u32,
            steps,
        )
        &&& now.state.dropped >= steps.len() - now.records().len()
    }
}

/// The newest record of a CPU is that of call `i`, with the number of calls on
/// the CPU before it as its sequence number.
pub open spec fn newest_is(now: CpuRing, calls: Seq<Call>, i: int) -> bool {
    &&& now.records().len() > 0
    &&& now.records().last().decoded() == Some(
        DecodedView {
            timestamp: calls[i].timestamp,
            cpu_id: calls[i].cpu_id,
            seq: steps_of(calls.take(i), calls[i].cpu_id as int).len() as u64,
            event: calls[i].event.as_read(),
        },
    )
}

/// What calls leave on a CPU that was empty.
proof fn lemma_recorded(start: CpuRing, mode: BufferMode, c: int, calls: Seq<Call>)
    requires
        start.wf(),
        start.state == CpuState::fresh(),
    ensures
        recorded(start, mode, c, calls, run(start, mode, c as u32, steps_of(calls, c))),
{
    let cpu_id = c as u32;
    let steps = steps_of(calls, c);
    let now = run(start, mode, cpu_id, steps);
    let all = written(start, mode, cpu_id, steps);
    ring::law_fresh(start.ring);
    append::law_fresh_in_order(start.ring);
    assert(start == (CpuRing { state: CpuState::fresh(), ring: start.ring }));
    lemma_calls_only(start, mode, cpu_id, calls, c);
    law_history_keeps_newest(start, mode, cpu_id, steps);
    assert(start.records() + all =~= all);
    if mode == BufferMode::StopOnFull {
        law_history_keeps_all(start, mode, cpu_id, steps);
    }
    if all.len() > 0 {
        law_history_not_empty(start, mode, cpu_id, steps);
    }
    if calls.len() <= u64::MAX {
        law_history_in_order(start, mode, cpu_id, steps);
    }
    if now.state.dropped < u64::MAX {
        law_history_counts_drops(start, mode, cpu_id, steps);
    }
}

/// What a written call leaves on a CPU that was empty before the first call.
proof fn lemma_newest(start: CpuRing, mode: BufferMode, calls: Seq<Call>, i: int)
    requires
        start.wf(),
        start.state == CpuState::fresh(),
        0 <= i < calls.len() <= u64::MAX,
        append::append_outcome(
            run(
                start,
                mode,
                calls[i].cpu_id,
                steps_of(calls.take(i), calls[i].cpu_id as int),
            ),
            mode,
            calls[i].cpu_id,
            calls[i].timestamp,
            calls[i].event,
        ).1 == AppendStatus::Written,
    ensures
        newest_is(
            append::append_outcome(
                run(
                    start,
                    mode,
                    calls[i].cpu_id,
                    steps_of(calls.take(i), calls[i].cpu_id as int),
                ),
                mode,
                calls[i].cpu_id,
                calls[i].timestamp,
                calls[i].event,
            ).0,
            calls,
            i,
        ),
{
    let call = calls[i];
    let steps = steps_of(calls.take(i), call.cpu_id as int);
    lemma_calls_only(start, mode, call.cpu_id, calls.take(i), call.cpu_id as int);
    law_history_keeps_wf(start, mode, call.cpu_id, steps);
    law_history_numbers(start, mode, call.cpu_id, steps);
    append::law_read_after_append(
        run(start, mode, call.cpu_id, steps),
        mode,
        call.cpu_id,
        call.timestamp,
        call.event,
    );
}

/// What a session holds of a CPU after any calls since it was started.
pub proof fn law_session_records<'a, P, const MAX_CPUS: usize>(
    sessions: Seq<TraceSession<'a, P, MAX_CPUS>>,
    calls: Seq<Call>,
    statuses: Seq<AppendStatus>,
    c: int,
)
    requires
        session_history(sessions, calls, statuses),
        sessions[0].wf(),
        0 <= c < sessions[0].cpu_count,
        sessions[0].cpu(c).state == CpuState::fresh(),
    ensures
        recorded(
            sessions[0].cpu(c),
            sessions[0].mode,
            c,
            calls,
            sessions.last().cpu(c),
        ),
{
    law_session_history(sessions, calls, statuses);
    assert(sessions[0].cpu(c).wf());
    lemma_recorded(sessions[0].cpu(c), sessions[0].mode, c, calls);
}

/// The sequence number of a record is the number of the call that wrote it.
///
/// If a call on a CPU is written, the newest record of the CPU decodes to the
/// event, with the timestamp, the CPU id, and as its sequence number the number
/// of calls on that CPU since the session was started. So calls that were dropped
/// use up a number, and calls on other CPUs do not.
pub proof fn law_session_numbers<'a, P, const MAX_CPUS: usize>(
    sessions: Seq<TraceSession<'a, P, MAX_CPUS>>,
    calls: Seq<Call>,
    statuses: Seq<AppendStatus>,
    i: int,
)
    requires
        session_history(sessions, calls, statuses),
        sessions[0].wf(),
        0 <= i < calls.len() <= u64::MAX,
        statuses[i] == AppendStatus::Written,
        sessions[0].cpu(calls[i].cpu_id as int).state == CpuState::fresh(),
    ensures
        calls[i].cpu_id < sessions[0].cpu_count,
        newest_is(sessions[i + 1].cpu(calls[i].cpu_id as int), calls, i),
{
    let c = calls[i].cpu_id as int;
    lemma_session_cpu(sessions, calls, statuses, i, c);
    lemma_session_step(sessions, calls, statuses, i, c);
    assert(sessions[0].cpu(c).wf());
    lemma_newest(sessions[0].cpu(c), sessions[0].mode, calls, i);
}

/// The ring of every CPU of an image is well-formed.
proof fn lemma_image_cpu_wf<'a, P>(image: TraceImage<'a, P>, c: int)
    requires
        image.wf(),
        0 <= c < image.count(),
    ensures
        image.cpu(c).wf(),
{
    assert(image::cpu_ok(image.memory(), image.count() as int, image.buffer_size() as int, c));
}

/// What an image holds of a CPU after any calls since it was initialized.
pub proof fn law_image_records<'a, P>(
    images: Seq<TraceImage<'a, P>>,
    calls: Seq<Call>,
    statuses: Seq<AppendStatus>,
    c: int,
)
    requires
        image_history(images, calls, statuses),
        images[0].wf(),
        0 <= c < images[0].count(),
        images[0].cpu(c).state == CpuState::fresh(),
    ensures
        recorded(
            images[0].cpu(c),
            images[0].buffer_mode(),
            c,
            calls,
            images.last().cpu(c),
        ),
{
    law_image_history(images, calls, statuses);
    lemma_image_cpu_wf(images[0], c);
    lemma_recorded(images[0].cpu(c), images[0].buffer_mode(), c, calls);
}

/// The sequence number of a record is the number of the call that wrote it.
///
/// If a call on a CPU is written, the newest record of the CPU decodes to the
/// event, with the timestamp, the CPU id, and as its sequence number the number
/// of calls on that CPU since the image was initialized. So calls that were dropped
/// use up a number, and calls on other CPUs do not.
pub proof fn law_image_numbers<'a, P>(
    images: Seq<TraceImage<'a, P>>,
    calls: Seq<Call>,
    statuses: Seq<AppendStatus>,
    i: int,
)
    requires
        image_history(images, calls, statuses),
        images[0].wf(),
        0 <= i < calls.len() <= u64::MAX,
        statuses[i] == AppendStatus::Written,
        images[0].cpu(calls[i].cpu_id as int).state == CpuState::fresh(),
    ensures
        calls[i].cpu_id < images[0].count(),
        newest_is(images[i + 1].cpu(calls[i].cpu_id as int), calls, i),
{
    let c = calls[i].cpu_id as int;
    lemma_image_cpu(images, calls, statuses, i, c);
    lemma_image_step(images, calls, statuses, i, c);
    lemma_image_cpu_wf(images[0], c);
    lemma_newest(images[0].cpu(c), images[0].buffer_mode(), calls, i);
}

} // verus!
