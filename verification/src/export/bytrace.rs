//! The bytrace text exporter.

use vstd::prelude::*;

use crate::export::order;
use crate::export::order::sort_records;
use crate::image;
use crate::layout;
use crate::payload::{DecodedRecord, DecodedView, EventView, RecordView};
use crate::ring::{BufferMode, CpuRing};
use crate::session::TraceSnapshot;
use crate::snapshot;
use crate::snapshot::TraceImageSnapshot;
use crate::stream::RecordIter;
use crate::task::TaskView;
use crate::text;
use crate::text::{push_decimal, push_flush_left, push_flush_right, push_signed};

verus! {

/// What the records that can be decoded say, in their order.
pub open spec fn decoded(records: Seq<RecordView>) -> Seq<DecodedView>
    decreases records.len(),
{
    if records.len() == 0 {
        Seq::empty()
    } else {
        match records.last().decoded() {
            Some(record) => decoded(records.drop_last()).push(record),
            None => decoded(records.drop_last()),
        }
    }
}

/// What the records of several CPUs say, CPU by CPU.
pub open spec fn all_decoded(cpus: Seq<CpuRing>) -> Seq<DecodedView>
    decreases cpus.len(),
{
    if cpus.len() == 0 {
        Seq::empty()
    } else {
        all_decoded(cpus.drop_last()) + decoded(cpus.last().records())
    }
}

/// The comment block in front of `count` records.
pub open spec fn header_text(count: nat) -> Seq<char> {
    "# tracer: nop\n"@ + "# entries-in-buffer/entries-written: "@ + text::decimal(count) + "/"@
        + text::decimal(count) + "\n"@ + "#\n"@
        + "#                              _-----=> irqs-off\n"@
        + "#                             / _----=> need-resched\n"@
        + "#                            | / _---=> hardirq/softirq\n"@
        + "#                            || / _--=> preempt-depth\n"@
        + "#                            ||| /     delay\n"@
        + "#           TASK-PID   TGID   CPU#  ||||    TIMESTAMP  FUNCTION\n"@ + "\n"@
}

/// How a line starts: the task, the CPU, and the time in seconds with six
/// decimals.
pub open spec fn prefix_text(task: TaskView, cpu_id: u32, timestamp: u64) -> Seq<char> {
    text::flush_left(task.comm, 12) + "-"@ + text::decimal(task.tid as nat) + " ("@
        + text::flush_right(text::decimal(task.tgid as nat), 5, ' ') + ") ["@ + text::flush_right(
        text::decimal(cpu_id as nat),
        3,
        '0',
    ) + "] .... "@ + text::decimal((timestamp / 1_000_000_000) as nat) + "."@ + text::flush_right(
        text::decimal(((timestamp % 1_000_000_000) / 1_000) as nat),
        6,
        '0',
    )
}

/// The line of a record.
pub open spec fn record_text(record: DecodedView) -> Seq<char> {
    match record.event {
        EventView::ContextSwitch { prev, prev_state, next } => prefix_text(
            prev,
            record.cpu_id,
            record.timestamp,
        ) + ": sched_switch: prev_comm="@ + prev.comm + " prev_pid="@ + text::decimal(
            prev.tid as nat,
        ) + " prev_prio="@ + text::signed_decimal(prev.prio as int) + " prev_state="@
            + seq![prev_state.letter()] + " ==> next_comm="@ + next.comm + " next_pid="@
            + text::decimal(next.tid as nat) + " next_prio="@ + text::signed_decimal(
            next.prio as int,
        ) + "\n"@,
        EventView::TraceMarkBegin { task, name } => prefix_text(
            task,
            record.cpu_id,
            record.timestamp,
        ) + ": tracing_mark_write: B|"@ + text::decimal(task.tgid as nat) + "|"@ + name + "\n"@,
        EventView::TraceMarkEnd { task } => prefix_text(task, record.cpu_id, record.timestamp)
            + ": tracing_mark_write: E|"@ + text::decimal(task.tgid as nat) + "\n"@,
    }
}

/// The lines of several records.
pub open spec fn lines_text(records: Seq<DecodedView>) -> Seq<char>
    decreases records.len(),
{
    if records.len() == 0 {
        Seq::empty()
    } else {
        lines_text(records.drop_last()) + record_text(records.last())
    }
}

/// The bytrace text of the given records: the comment block, and then the
/// records in order of time.
pub open spec fn bytrace_text(records: Seq<DecodedView>) -> Seq<char> {
    header_text(records.len()) + lines_text(order::sorted(records))
}

/// Formats how a line starts.
fn line_prefix(comm: &str, tid: u32, tgid: u32, cpu_id: u32, timestamp_ns: u64) -> (line: String)
    ensures
        forall|prio: i32|
            line@ == #[trigger] prefix_text(
                TaskView { comm: comm@, tid, tgid, prio },
                cpu_id,
                timestamp_ns,
            ),
{
    let seconds: u64 = timestamp_ns / 1_000_000_000;
    let micros: u64 = (timestamp_ns % 1_000_000_000) / 1_000;
    let mut line = String::new();
    push_flush_left(&mut line, comm, 12);
    assert(line@ =~= text::flush_left(comm@, 12));
    line.append("-");
    push_decimal(&mut line, tid as u64);
    line.append(" (");
    push_flush_right(&mut line, tgid as u64, 5, false);
    line.append(") [");
    push_flush_right(&mut line, cpu_id as u64, 3, true);
    line.append("] .... ");
    push_decimal(&mut line, seconds);
    line.append(".");
    push_flush_right(&mut line, micros, 6, true);
    line
}

/// Writes the line of a record.
fn write_record(out: &mut String, record: &DecodedRecord<'_>)
    ensures
        final(out)@ == old(out)@ + record_text(record@),
{
    match *record {
        DecodedRecord::ContextSwitch { timestamp, cpu_id, seq, prev, prev_state, next } => {
            let mut line = line_prefix(prev.comm, prev.tid, prev.tgid, cpu_id, timestamp);
            assert(line@ == prefix_text(prev@, cpu_id, timestamp));
            line.append(": sched_switch: prev_comm=");
            line.append(prev.comm);
            line.append(" prev_pid=");
            push_decimal(&mut line, prev.tid as u64);
            line.append(" prev_prio=");
            push_signed(&mut line, prev.prio);
            line.append(" prev_state=");
            line.append(prev_state.bytrace());
            line.append(" ==> next_comm=");
            line.append(next.comm);
            line.append(" next_pid=");
            push_decimal(&mut line, next.tid as u64);
            line.append(" next_prio=");
            push_signed(&mut line, next.prio);
            line.append("\n");
            out.append(line.as_str());
        },
        DecodedRecord::TraceMarkBegin { timestamp, cpu_id, seq, task, name } => {
            let mut line = line_prefix(task.comm, task.tid, task.tgid, cpu_id, timestamp);
            assert(line@ == prefix_text(task@, cpu_id, timestamp));
            line.append(": tracing_mark_write: B|");
            push_decimal(&mut line, task.tgid as u64);
            line.append("|");
            line.append(name);
            line.append("\n");
            out.append(line.as_str());
        },
        DecodedRecord::TraceMarkEnd { timestamp, cpu_id, seq, task } => {
            let mut line = line_prefix(task.comm, task.tid, task.tgid, cpu_id, timestamp);
            assert(line@ == prefix_text(task@, cpu_id, timestamp));
            line.append(": tracing_mark_write: E|");
            push_decimal(&mut line, task.tgid as u64);
            line.append("\n");
            out.append(line.as_str());
        },
    }
}

/// Writes the comment block in front of `count` records.
fn write_header(out: &mut String, count: usize)
    ensures
        final(out)@ == old(out)@ + header_text(count as nat),
{
    let mut block = String::new();
    block.append("# tracer: nop\n");
    assert(block@ =~= "# tracer: nop\n"@);
    block.append("# entries-in-buffer/entries-written: ");
    push_decimal(&mut block, count as u64);
    block.append("/");
    push_decimal(&mut block, count as u64);
    block.append("\n");
    block.append("#\n");
    block.append("#                              _-----=> irqs-off\n");
    block.append("#                             / _----=> need-resched\n");
    block.append("#                            | / _---=> hardirq/softirq\n");
    block.append("#                            || / _--=> preempt-depth\n");
    block.append("#                            ||| /     delay\n");
    block.append("#           TASK-PID   TGID   CPU#  ||||    TIMESTAMP  FUNCTION\n");
    block.append("\n");
    out.append(block.as_str());
}

/// Writes records as bytrace text, in order of time.
pub fn write_records(records: Vec<DecodedRecord<'_>>, out: &mut String)
    ensures
        final(out)@ == old(out)@ + bytrace_text(order::decoded_views(records@)),
{
    let ghost given = order::decoded_views(records@);
    let ghost before = out@;
    let count: usize = records.len();
    write_header(out, count);
    let records = sort_records(records);
    let ghost all = order::decoded_views(records@);
    let mut i: usize = 0;
    assert(out@ =~= before + (header_text(count as nat) + lines_text(all.take(0))));
    while i < records.len()
        invariant
            i <= records@.len(),
            all == order::decoded_views(records@),
            out@ == before + (header_text(count as nat) + lines_text(all.take(i as int))),
        decreases records@.len() - i,
    {
        write_record(out, &records[i]);
        i = i + 1;
        proof {
            let shown = all.take(i as int);
            assert(shown.drop_last() =~= all.take(i - 1));
            assert(shown.last() == records@[i - 1]@);
            assert(out@ =~= before + (header_text(count as nat) + lines_text(shown)));
        }
    }
    assert(all.take(i as int) =~= all);
}

/// Appends what the records of one CPU say to `records`.
fn collect_decoded<'a>(iter: RecordIter<'a>, records: &mut Vec<DecodedRecord<'a>>)
    ensures
        order::decoded_views(final(records)@) == order::decoded_views(old(records)@) + decoded(
            iter.records(),
        ),
{
    let raw = iter.collect();
    let ghost views = iter.records();
    let ghost before = order::decoded_views(records@);
    let mut i: usize = 0;
    assert(before + decoded(views.take(0)) =~= before);
    while i < raw.len()
        invariant
            i <= raw@.len(),
            views.len() == raw@.len(),
            forall|j: int| 0 <= j < raw@.len() ==> views[j] == (#[trigger] raw@[j])@,
            order::decoded_views(records@) == before + decoded(views.take(i as int)),
        decreases raw@.len() - i,
    {
        let ghost done = records@;
        proof {
            let seen = views.take(i + 1);
            assert(seen.drop_last() =~= views.take(i as int));
            assert(seen.last() == raw@[i as int]@);
        }
        if let Some(record) = raw[i].decode() {
            records.push(record);
            assert(order::decoded_views(records@) =~= order::decoded_views(done).push(record@));
        }
        i = i + 1;
        assert(order::decoded_views(records@) =~= before + decoded(views.take(i as int)));
    }
    assert(views.take(i as int) =~= views);
}

/// Writes a snapshot as SmartPerf-compatible bytrace text.
///
/// # Side Effects
///
/// Appends a bytrace header and event lines to `out`. It allocates a temporary
/// vector, decodes supported records, and sorts them by
/// `(timestamp, cpu_id, per_cpu_seq)`.
pub fn write_bytrace(snapshot: TraceSnapshot<'_>, out: &mut String)
    ensures
        final(out)@ == old(out)@ + bytrace_text(
            all_decoded(Seq::new(snapshot.count() as nat, |i: int| snapshot.cpu(i))),
        ),
{
    let ghost cpus = Seq::new(snapshot.count() as nat, |i: int| snapshot.cpu(i));
    let mut records: Vec<DecodedRecord<'_>> = Vec::new();
    let count: usize = snapshot.cpu_count();
    let mut cpu: usize = 0;
    assert(order::decoded_views(records@) =~= all_decoded(cpus.take(0)));
    while cpu < count
        invariant
            cpu <= count,
            count == snapshot.count(),
            cpus == Seq::new(snapshot.count() as nat, |i: int| snapshot.cpu(i)),
            order::decoded_views(records@) == all_decoded(cpus.take(cpu as int)),
        decreases count - cpu,
    {
        proof {
            let seen = cpus.take(cpu + 1);
            assert(seen.drop_last() =~= cpus.take(cpu as int));
            assert(seen.last() == snapshot.cpu(cpu as int));
        }
        if let Some(stream) = snapshot.cpu_stream(cpu) {
            collect_decoded(stream.records(), &mut records);
        }
        cpu = cpu + 1;
    }
    assert(cpus.take(cpu as int) =~= cpus);
    write_records(records, out);
}

/// Writes a trace image snapshot as SmartPerf-compatible bytrace text.
///
/// # Side Effects
///
/// Those of [`write_bytrace`].
pub fn write_image_bytrace(snapshot: TraceImageSnapshot<'_>, out: &mut String)
    ensures
        final(out)@ == old(out)@ + bytrace_text(
            all_decoded(Seq::new(snapshot.count() as nat, |i: int| snapshot.cpu(i))),
        ),
{
    let ghost cpus = Seq::new(snapshot.count() as nat, |i: int| snapshot.cpu(i));
    let mut records: Vec<DecodedRecord<'_>> = Vec::new();
    let count: usize = snapshot.cpu_count();
    let mut cpu: usize = 0;
    assert(order::decoded_views(records@) =~= all_decoded(cpus.take(0)));
    while cpu < count
        invariant
            cpu <= count,
            count == snapshot.count(),
            cpus == Seq::new(snapshot.count() as nat, |i: int| snapshot.cpu(i)),
            order::decoded_views(records@) == all_decoded(cpus.take(cpu as int)),
        decreases count - cpu,
    {
        proof {
            let seen = cpus.take(cpu + 1);
            assert(seen.drop_last() =~= cpus.take(cpu as int));
            assert(seen.last() == snapshot.cpu(cpu as int));
        }
        if let Some(stream) = snapshot.cpu_stream(cpu) {
            collect_decoded(stream.records(), &mut records);
        }
        cpu = cpu + 1;
    }
    assert(cpus.take(cpu as int) =~= cpus);
    write_records(records, out);
}

/// The order in which records are found does not change the text, if no two of
/// them have the same timestamp, CPU and sequence number.
pub proof fn law_text_ignores_order(a: Seq<DecodedView>, b: Seq<DecodedView>)
    requires
        a.to_multiset() == b.to_multiset(),
        order::distinct_keys(a),
    ensures
        bytrace_text(a) == bytrace_text(b),
{
    order::law_sorted_ignores_order(a, b);
    order::law_sorted(a);
    order::law_sorted(b);
}

/// Converting a RAM dump gives the text of the image that was dumped.
///
/// If the bytes of an image are part of a RAM dump, then the text of the image
/// that is found in the dump is the text of the CPUs of the image.
pub proof fn law_text_of_dump(
    ram: Seq<u8>,
    ram_base: u64,
    trace_base: u64,
    b: Seq<u8>,
    count: usize,
    size: usize,
    mode: BufferMode,
)
    requires
        image::image_ok(b, count, size, mode),
        count <= u32::MAX,
        ram_base <= trace_base,
        trace_base - ram_base + b.len() <= ram.len() <= usize::MAX,
        ram.subrange(trace_base - ram_base, trace_base - ram_base + b.len()) == b,
    ensures
        snapshot::ram_error(ram, ram_base, trace_base) is None,
        ({
            let found = snapshot::image_in_ram(ram, trace_base - ram_base);
            let header = layout::image_header(found);
            let table = header.desc_offset as int;
            bytrace_text(
                all_decoded(
                    Seq::new(
                        header.cpu_count as nat,
                        |i: int| snapshot::stream_at(found, table, i),
                    ),
                ),
            ) == bytrace_text(
                all_decoded(Seq::new(count as nat, |i: int| image::image_cpu(b, i))),
            )
        }),
{
    image::law_image_parses_from_ram(ram, ram_base, trace_base, b, count, size, mode);
    let found = snapshot::image_in_ram(ram, trace_base - ram_base);
    let header = layout::image_header(found);
    let table = header.desc_offset as int;
    assert(Seq::new(header.cpu_count as nat, |i: int| snapshot::stream_at(found, table, i))
        =~= Seq::new(count as nat, |i: int| image::image_cpu(b, i)));
}

/// The decodable records of all CPUs are collected, each once.
///
/// They come CPU by CPU, for every CPU, and of each CPU in the order in which it
/// holds them. Their number is the sum of the numbers of decodable records of the
/// CPUs.
pub proof fn law_all_records_are_collected(cpus: Seq<CpuRing>)
    ensures
        all_decoded(cpus) == cpus.map_values(
            |cpu: CpuRing|
                cpu.records().filter(|r: RecordView| r.decoded() is Some).map_values(
                    |r: RecordView| r.decoded()->0,
                ),
        ).flatten(),
        all_decoded(cpus).len() == cpus.fold_left(
            0nat,
            |sum: nat, cpu: CpuRing|
                sum + cpu.records().filter(|r: RecordView| r.decoded() is Some).len(),
        ),
    decreases cpus.len(),
{
    let shown = |cpu: CpuRing|
        cpu.records().filter(|r: RecordView| r.decoded() is Some).map_values(
            |r: RecordView| r.decoded()->0,
        );
    let parts = cpus.map_values(shown);
    parts.lemma_flatten_and_flatten_alt_are_equivalent();
    if cpus.len() > 0 {
        let front = cpus.drop_last();
        law_all_records_are_collected(front);
        front.map_values(shown).lemma_flatten_and_flatten_alt_are_equivalent();
        lemma_decoded_filter(cpus.last().records());
        assert(parts.drop_last() =~= front.map_values(shown));
        assert(parts.last() == shown(cpus.last()));
    }
}

/// What the records that can be decoded say is what a filter leaves of them.
proof fn lemma_decoded_filter(records: Seq<RecordView>)
    ensures
        decoded(records) == records.filter(|r: RecordView| r.decoded() is Some).map_values(
            |r: RecordView| r.decoded()->0,
        ),
    decreases records.len(),
{
    reveal(Seq::filter);
    let kept = records.filter(|r: RecordView| r.decoded() is Some);
    let shown = kept.map_values(|r: RecordView| r.decoded()->0);
    if records.len() > 0 {
        lemma_decoded_filter(records.drop_last());
    }
    assert(decoded(records) =~= shown);
}

/// A record of a CPU that can be decoded is collected.
proof fn lemma_collected(cpus: Seq<CpuRing>, i: int, k: int)
    requires
        0 <= i < cpus.len(),
        0 <= k < cpus[i].records().len(),
        cpus[i].records()[k].decoded() is Some,
    ensures
        all_decoded(cpus).contains(cpus[i].records()[k].decoded()->0),
    decreases cpus.len(),
{
    let record = cpus[i].records()[k].decoded()->0;
    let front = all_decoded(cpus.drop_last());
    let back = decoded(cpus.last().records());
    if i < cpus.len() - 1 {
        lemma_collected(cpus.drop_last(), i, k);
        let at = choose|at: int| 0 <= at < front.len() && front[at] == record;
        assert(all_decoded(cpus)[at] == record);
    } else {
        lemma_decoded_contains(cpus[i].records(), k);
        let at = choose|at: int| 0 <= at < back.len() && back[at] == record;
        assert(all_decoded(cpus)[front.len() + at] == record);
    }
}

/// A record that can be decoded is among the decoded ones.
proof fn lemma_decoded_contains(records: Seq<RecordView>, k: int)
    requires
        0 <= k < records.len(),
        records[k].decoded() is Some,
    ensures
        decoded(records).contains(records[k].decoded()->0),
    decreases records.len(),
{
    let record = records[k].decoded()->0;
    let front = decoded(records.drop_last());
    if k < records.len() - 1 {
        lemma_decoded_contains(records.drop_last(), k);
        let at = choose|at: int| 0 <= at < front.len() && front[at] == record;
        assert(decoded(records)[at] == record);
    } else {
        assert(decoded(records)[front.len() as int] == record);
    }
}

/// The text of records is the comment block, and then one line for each record, in
/// order of time.
///
/// The lines are those of the given records in some order, in which timestamps do
/// not decrease, CPU ids do not decrease among equal timestamps, and sequence
/// numbers do not decrease among equal CPU ids. Records that agree in all three
/// stand as they were given. The order is returned.
pub proof fn law_text_has_a_line_for_each(records: Seq<DecodedView>) -> (lines: Seq<DecodedView>)
    ensures
        lines.len() == records.len(),
        lines.to_multiset() == records.to_multiset(),
        forall|i: int, j: int|
            0 <= i < j < lines.len() ==> {
                let a = #[trigger] lines[i];
                let b = #[trigger] lines[j];
                &&& a.timestamp <= b.timestamp
                &&& a.timestamp == b.timestamp ==> a.cpu_id <= b.cpu_id
                &&& a.timestamp == b.timestamp && a.cpu_id == b.cpu_id ==> a.seq <= b.seq
            },
        forall|timestamp: u64, cpu_id: u32, seq: u64|
            #[trigger] order::agreeing(lines, timestamp, cpu_id, seq) == order::agreeing(
                records,
                timestamp,
                cpu_id,
                seq,
            ),
        bytrace_text(records) == header_text(records.len()) + lines.map_values(
            |r: DecodedView| record_text(r),
        ).flatten(),
{
    let lines = order::sorted(records);
    order::law_sorted_by_time(records);
    assert forall|timestamp: u64, cpu_id: u32, seq: u64|
        #[trigger] order::agreeing(lines, timestamp, cpu_id, seq) == order::agreeing(
            records,
            timestamp,
            cpu_id,
            seq,
        ) by {
        order::law_sorted_keeps_ties(records, timestamp, cpu_id, seq);
    }
    lemma_lines_flatten(lines);
    lines
}

/// Lines one behind the other are the lines of the records, flattened.
proof fn lemma_lines_flatten(records: Seq<DecodedView>)
    ensures
        lines_text(records) == records.map_values(|r: DecodedView| record_text(r)).flatten(),
    decreases records.len(),
{
    let lines = records.map_values(|r: DecodedView| record_text(r));
    lines.lemma_flatten_and_flatten_alt_are_equivalent();
    if records.len() > 0 {
        let front = records.drop_last();
        lemma_lines_flatten(front);
        front.map_values(
            |r: DecodedView| record_text(r),
        ).lemma_flatten_and_flatten_alt_are_equivalent();
        assert(lines.drop_last() =~= front.map_values(|r: DecodedView| record_text(r)));
    }
}

/// Every line of a record ends with a line break.
proof fn lemma_line_ends(record: DecodedView)
    ensures
        record_text(record).len() > 0,
        record_text(record).last() == '\n',
{
    reveal_strlit("\n");
}

/// The comment block ends with a line break.
proof fn lemma_header_ends(count: nat)
    ensures
        header_text(count).len() > 0,
        header_text(count).last() == '\n',
{
    reveal_strlit("\n");
}

/// The line of each record is among the lines, at the start of a line.
proof fn lemma_line_among(records: Seq<DecodedView>, at: int) -> (split: (Seq<char>, Seq<char>))
    requires
        0 <= at < records.len(),
    ensures
        lines_text(records) == split.0 + record_text(records[at]) + split.1,
        split.0.len() > 0 ==> split.0.last() == '\n',
    decreases records.len(),
{
    let front = records.drop_last();
    if at == records.len() - 1 {
        let before = lines_text(front);
        if front.len() > 0 {
            lemma_line_ends(front.last());
        }
        assert(lines_text(records) =~= before + record_text(records[at]) + Seq::<char>::empty());
        (before, Seq::empty())
    } else {
        let (before, after) = lemma_line_among(front, at);
        let rest = after + record_text(records.last());
        assert(lines_text(records) =~= before + record_text(records[at]) + rest);
        (before, rest)
    }
}

/// Every record that can be decoded is in the text.
///
/// For each CPU, whatever their number, and each record of it that decodes, the
/// text holds the line of that record, at the start of a line. What stands in
/// front of it and behind it is returned.
pub proof fn law_text_shows_every_record(cpus: Seq<CpuRing>, i: int, k: int) -> (split: (
    Seq<char>,
    Seq<char>,
))
    requires
        0 <= i < cpus.len(),
        0 <= k < cpus[i].records().len(),
        cpus[i].records()[k].decoded() is Some,
    ensures
        bytrace_text(all_decoded(cpus)) == split.0 + record_text(
            cpus[i].records()[k].decoded()->0,
        ) + split.1,
        split.0.len() > 0,
        split.0.last() == '\n',
{
    broadcast use vstd::seq_lib::group_to_multiset_ensures;

    let records = all_decoded(cpus);
    let record = cpus[i].records()[k].decoded()->0;
    let lines = order::sorted(records);
    lemma_collected(cpus, i, k);
    order::law_sorted(records);
    assert(records.to_multiset().count(record) > 0);
    assert(lines.contains(record));
    let at = choose|at: int| 0 <= at < lines.len() && lines[at] == record;
    let (before, after) = lemma_line_among(lines, at);
    let head = header_text(records.len());
    lemma_header_ends(records.len());
    assert(bytrace_text(records) =~= (head + before) + record_text(record) + after);
    (head + before, after)
}

/// The comment block gives the number of records twice.
///
/// The number, without leading zeros, is returned.
pub proof fn law_header_counts(records: Seq<DecodedView>) -> (count: Seq<char>)
    ensures
        text::numeral(count, records.len()),
        count.len() > 1 ==> count[0] != '0',
        ({
            let front = "# tracer: nop\n# entries-in-buffer/entries-written: "@ + count + "/"@
                + count;
            let legend =
                "\n#\n#                              _-----=> irqs-off\n#                             / _----=> need-resched\n#                            | / _---=> hardirq/softirq\n#                            || / _--=> preempt-depth\n#                            ||| /     delay\n#           TASK-PID   TGID   CPU#  ||||    TIMESTAMP  FUNCTION\n\n"@;
            bytrace_text(records).take((front + legend).len() as int) == front + legend
        }),
{
    let count = text::decimal(records.len());
    text::law_decimal(records.len());
    reveal_strlit("# tracer: nop\n# entries-in-buffer/entries-written: ");
    reveal_strlit("# tracer: nop\n");
    reveal_strlit("# entries-in-buffer/entries-written: ");
    lemma_legend();
    let front = "# tracer: nop\n# entries-in-buffer/entries-written: "@ + count + "/"@ + count;
    let legend =
        "\n#\n#                              _-----=> irqs-off\n#                             / _----=> need-resched\n#                            | / _---=> hardirq/softirq\n#                            || / _--=> preempt-depth\n#                            ||| /     delay\n#           TASK-PID   TGID   CPU#  ||||    TIMESTAMP  FUNCTION\n\n"@;
    assert("# tracer: nop\n# entries-in-buffer/entries-written: "@ =~= "# tracer: nop\n"@
        + "# entries-in-buffer/entries-written: "@);
    assert(header_text(records.len()) =~= front + legend);
    assert(bytrace_text(records).take((front + legend).len() as int) =~= front + legend);
    count
}

/// The legend of the comment block is its lines.
proof fn lemma_legend()
    ensures
        "\n#\n#                              _-----=> irqs-off\n#                             / _----=> need-resched\n#                            | / _---=> hardirq/softirq\n#                            || / _--=> preempt-depth\n#                            ||| /     delay\n#           TASK-PID   TGID   CPU#  ||||    TIMESTAMP  FUNCTION\n\n"@
            == "\n"@ + "#\n"@ + "#                              _-----=> irqs-off\n"@
            + "#                             / _----=> need-resched\n"@
            + "#                            | / _---=> hardirq/softirq\n"@
            + "#                            || / _--=> preempt-depth\n"@
            + "#                            ||| /     delay\n"@
            + "#           TASK-PID   TGID   CPU#  ||||    TIMESTAMP  FUNCTION\n"@ + "\n"@,
{
    reveal_strlit(
        "\n#\n#                              _-----=> irqs-off\n#                             / _----=> need-resched\n#                            | / _---=> hardirq/softirq\n#                            || / _--=> preempt-depth\n#                            ||| /     delay\n#           TASK-PID   TGID   CPU#  ||||    TIMESTAMP  FUNCTION\n\n",
    );
    reveal_strlit("\n");
    reveal_strlit("#\n");
    reveal_strlit("#                              _-----=> irqs-off\n");
    reveal_strlit("#                             / _----=> need-resched\n");
    reveal_strlit("#                            | / _---=> hardirq/softirq\n");
    reveal_strlit("#                            || / _--=> preempt-depth\n");
    reveal_strlit("#                            ||| /     delay\n");
    reveal_strlit("#           TASK-PID   TGID   CPU#  ||||    TIMESTAMP  FUNCTION\n");
    assert("\n#\n#                              _-----=> irqs-off\n#                             / _----=> need-resched\n#                            | / _---=> hardirq/softirq\n#                            || / _--=> preempt-depth\n#                            ||| /     delay\n#           TASK-PID   TGID   CPU#  ||||    TIMESTAMP  FUNCTION\n\n"@
        =~= "\n"@ + "#\n"@ + "#                              _-----=> irqs-off\n"@
        + "#                             / _----=> need-resched\n"@
        + "#                            | / _---=> hardirq/softirq\n"@
        + "#                            || / _--=> preempt-depth\n"@
        + "#                            ||| /     delay\n"@
        + "#           TASK-PID   TGID   CPU#  ||||    TIMESTAMP  FUNCTION\n"@ + "\n"@);
}

/// The parts of the start of a line.
pub ghost struct LineStart {
    /// Blanks behind the name.
    pub name_fill: Seq<char>,
    /// Thread id.
    pub tid: Seq<char>,
    /// Blanks in front of the group id.
    pub tgid_fill: Seq<char>,
    /// Group id.
    pub tgid: Seq<char>,
    /// CPU id.
    pub cpu: Seq<char>,
    /// Whole seconds.
    pub seconds: Seq<char>,
    /// Microseconds.
    pub micros: Seq<char>,
}

impl LineStart {
    /// The parts, one behind the other, behind the name of a task.
    pub open spec fn text(self, comm: Seq<char>) -> Seq<char> {
        comm + self.name_fill + "-"@ + self.tid + " ("@ + self.tgid_fill + self.tgid + ") ["@
            + self.cpu + "] .... "@ + self.seconds + "."@ + self.micros
    }

    /// The parts say the task, the CPU and the time.
    ///
    /// The name is filled with blanks up to twelve characters, the group id up to
    /// five, and the CPU id with zeros up to three. The time is in seconds with six
    /// decimals, and is early by less than a microsecond.
    pub open spec fn says(self, task: TaskView, cpu_id: u32, timestamp: u64) -> bool {
        &&& text::all_blank(self.name_fill)
        &&& task.comm.len() + self.name_fill.len() == (if task.comm.len() < 12 {
            12
        } else {
            task.comm.len()
        })
        &&& text::plain_numeral(self.tid, task.tid as nat)
        &&& text::all_blank(self.tgid_fill)
        &&& self.tgid_fill.len() + self.tgid.len() >= 5
        &&& self.tgid.len() >= 5 ==> self.tgid_fill.len() == 0
        &&& self.tgid_fill.len() > 0 ==> self.tgid_fill.len() + self.tgid.len() == 5
        &&& text::plain_numeral(self.tgid, task.tgid as nat)
        &&& text::numeral(self.cpu, cpu_id as nat)
        &&& self.cpu.len() >= 3
        &&& self.cpu.len() > 3 ==> self.cpu[0] != '0'
        &&& self.micros.len() == 6
        &&& exists|s: nat, m: nat|
            {
                &&& #[trigger] text::plain_numeral(self.seconds, s)
                &&& #[trigger] text::numeral(self.micros, m)
                &&& s * 1_000_000_000 + m * 1_000 <= timestamp < s * 1_000_000_000 + m * 1_000
                    + 1_000
            }
    }
}

/// A number below a million has no more than six digits.
proof fn lemma_six_digits(n: nat)
    requires
        n < 1_000_000,
    ensures
        text::decimal(n).len() <= 6,
{
    reveal_with_fuel(text::decimal, 6);
}

/// How the start of a line says the task, the CPU and the time.
proof fn lemma_line_start(task: TaskView, cpu_id: u32, timestamp: u64) -> (start: LineStart)
    ensures
        start.says(task, cpu_id, timestamp),
        prefix_text(task, cpu_id, timestamp) == start.text(task.comm),
{
    let s = timestamp as nat / 1_000_000_000;
    let m = (timestamp as nat % 1_000_000_000) / 1_000;
    let (thread, group, cpu) = (task.tid as nat, task.tgid as nat, cpu_id as nat);
    let start = LineStart {
        name_fill: text::padding(' ', 12 - task.comm.len()),
        tid: text::decimal(thread),
        tgid_fill: text::padding(' ', 5 - text::decimal(group).len()),
        tgid: text::decimal(group),
        cpu: text::flush_right(text::decimal(cpu), 3, '0'),
        seconds: text::decimal(s),
        micros: text::flush_right(text::decimal(m), 6, '0'),
    };
    text::law_decimal(thread);
    text::law_decimal(group);
    text::law_zero_filled(cpu, 3);
    text::law_decimal(s);
    text::law_zero_filled(m, 6);
    lemma_six_digits(m);
    assert(start.micros.len() == 6);
    assert(text::plain_numeral(start.seconds, s) && text::numeral(start.micros, m));
    assert(prefix_text(task, cpu_id, timestamp) =~= start.text(task.comm));
    start
}

/// The line of a context switch says who left the CPU and who runs next.
///
/// Behind ` prev_pid=` and ` next_pid=` stand the thread ids, behind ` prev_prio=`
/// and ` next_prio=` the priorities, behind ` prev_state=` one letter, and behind
/// `prev_comm=` and ` next_comm=` the names. The start of the line, which is that of
/// the task that left, and the four numbers are returned.
pub proof fn law_switch_line(record: DecodedView) -> (parts: (
    LineStart,
    Seq<char>,
    Seq<char>,
    Seq<char>,
    Seq<char>,
))
    requires
        record.event is ContextSwitch,
    ensures
        ({
            let prev = record.event->prev;
            let next = record.event->next;
            let (start, prev_pid, prev_prio, next_pid, next_prio) = parts;
            &&& start.says(prev, record.cpu_id, record.timestamp)
            &&& text::plain_numeral(prev_pid, prev.tid as nat)
            &&& text::signed_numeral(prev_prio, prev.prio as int)
            &&& text::plain_numeral(next_pid, next.tid as nat)
            &&& text::signed_numeral(next_prio, next.prio as int)
            &&& record_text(record) == start.text(prev.comm) + ": sched_switch: prev_comm="@
                + prev.comm + " prev_pid="@ + prev_pid + " prev_prio="@ + prev_prio
                + " prev_state="@ + seq![record.event->prev_state.letter()] + " ==> next_comm="@
                + next.comm + " next_pid="@ + next_pid + " next_prio="@ + next_prio + "\n"@
        }),
{
    let prev = record.event->prev;
    let next = record.event->next;
    let start = lemma_line_start(prev, record.cpu_id, record.timestamp);
    let (left, runs) = (prev.tid as nat, next.tid as nat);
    let (left_prio, runs_prio) = (prev.prio as int, next.prio as int);
    text::law_decimal(left);
    text::law_decimal(runs);
    text::law_signed_decimal(left_prio);
    text::law_signed_decimal(runs_prio);
    (
        start,
        text::decimal(left),
        text::signed_decimal(left_prio),
        text::decimal(runs),
        text::signed_decimal(runs_prio),
    )
}

/// The line of the begin of a trace mark says the group id of the task and the
/// name of the mark, behind a start that says the task, the CPU and the time. The
/// start and the group id are returned.
pub proof fn law_begin_line(record: DecodedView) -> (parts: (LineStart, Seq<char>))
    requires
        record.event is TraceMarkBegin,
    ensures
        ({
            let task = record.event->TraceMarkBegin_task;
            let (start, tgid) = parts;
            &&& start.says(task, record.cpu_id, record.timestamp)
            &&& text::plain_numeral(tgid, task.tgid as nat)
            &&& record_text(record) == start.text(task.comm) + ": tracing_mark_write: B|"@ + tgid
                + "|"@ + record.event->name + "\n"@
        }),
{
    let task = record.event->TraceMarkBegin_task;
    let start = lemma_line_start(task, record.cpu_id, record.timestamp);
    let group = task.tgid as nat;
    text::law_decimal(group);
    (start, text::decimal(group))
}

/// The line of the end of a trace mark says the group id of the task, behind a
/// start that says the task, the CPU and the time. The start and the group id are
/// returned.
pub proof fn law_end_line(record: DecodedView) -> (parts: (LineStart, Seq<char>))
    requires
        record.event is TraceMarkEnd,
    ensures
        ({
            let task = record.event->TraceMarkEnd_task;
            let (start, tgid) = parts;
            &&& start.says(task, record.cpu_id, record.timestamp)
            &&& text::plain_numeral(tgid, task.tgid as nat)
            &&& record_text(record) == start.text(task.comm) + ": tracing_mark_write: E|"@ + tgid
                + "\n"@
        }),
{
    let task = record.event->TraceMarkEnd_task;
    let start = lemma_line_start(task, record.cpu_id, record.timestamp);
    let group = task.tgid as nat;
    text::law_decimal(group);
    (start, text::decimal(group))
}

/// Lines tell apart which thread runs next.
///
/// If two context switches agree in all but the thread id of the task that runs
/// next, they have different lines.
pub proof fn law_lines_tell_threads_apart(a: DecodedView, b: DecodedView)
    requires
        a.event is ContextSwitch,
        b.event is ContextSwitch,
        a.timestamp == b.timestamp,
        a.cpu_id == b.cpu_id,
        a.event->prev == b.event->prev,
        a.event->prev_state == b.event->prev_state,
        a.event->next.comm == b.event->next.comm,
        a.event->next.tgid == b.event->next.tgid,
        a.event->next.prio == b.event->next.prio,
        a.event->next.tid != b.event->next.tid,
    ensures
        record_text(a) != record_text(b),
{
    let (x, r, front) = lemma_next_thread(a);
    let (y, q, back) = lemma_next_thread(b);
    assert(front == back);
    if record_text(a) == record_text(b) {
        assert((front + (x + r)).skip(front.len() as int) =~= x + r);
        assert((back + (y + q)).skip(back.len() as int) =~= y + q);
        text::law_numeral_ends(
            x,
            y,
            r,
            q,
            a.event->next.tid as nat,
            b.event->next.tid as nat,
        );
    }
}

/// The thread id of the task that runs next, what stands behind it, and what stands
/// in front of it.
proof fn lemma_next_thread(record: DecodedView) -> (parts: (Seq<char>, Seq<char>, Seq<char>))
    requires
        record.event is ContextSwitch,
    ensures
        ({
            let prev = record.event->prev;
            let next = record.event->next;
            let (number, rest, front) = parts;
            &&& text::numeral(number, next.tid as nat)
            &&& rest.len() > 0
            &&& rest[0] == ' '
            &&& front == prefix_text(prev, record.cpu_id, record.timestamp)
                + ": sched_switch: prev_comm="@ + prev.comm + " prev_pid="@ + text::decimal(
                prev.tid as nat,
            ) + " prev_prio="@ + text::signed_decimal(prev.prio as int) + " prev_state="@
                + seq![record.event->prev_state.letter()] + " ==> next_comm="@ + next.comm
                + " next_pid="@
            &&& record_text(record) == front + (number + rest)
        }),
{
    reveal_strlit(" next_prio=");
    let prev = record.event->prev;
    let next = record.event->next;
    let runs = next.tid as nat;
    let front = prefix_text(prev, record.cpu_id, record.timestamp) + ": sched_switch: prev_comm="@
        + prev.comm + " prev_pid="@ + text::decimal(prev.tid as nat) + " prev_prio="@
        + text::signed_decimal(prev.prio as int) + " prev_state="@
        + seq![record.event->prev_state.letter()] + " ==> next_comm="@ + next.comm
        + " next_pid="@;
    let number = text::decimal(runs);
    let prio = text::signed_decimal(next.prio as int);
    let rest = " next_prio="@ + prio + "\n"@;
    text::law_decimal(runs);
    let line = record_text(record);
    assert(line == front + number + " next_prio="@ + prio + "\n"@);
    assert(front + number + " next_prio="@ + prio + "\n"@ =~= front + (number + rest));
    (number, rest, front)
}

} // verus!
