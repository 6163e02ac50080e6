//! The order in which records are exported.

use vstd::prelude::*;

use crate::payload::{DecodedRecord, DecodedView};

verus! {

/// The views of a sequence of decoded records.
pub open spec fn decoded_views(records: Seq<DecodedRecord<'_>>) -> Seq<DecodedView> {
    Seq::new(records.len(), |i: int| records[i]@)
}

/// What a record is ordered by: its timestamp, its CPU, its sequence number.
pub open spec fn key_of(record: DecodedView) -> (u64, u32, u64) {
    (record.timestamp, record.cpu_id, record.seq)
}

/// Record `a` may stand in front of record `b`.
pub open spec fn in_order(a: DecodedView, b: DecodedView) -> bool {
    let (a0, a1, a2) = key_of(a);
    let (b0, b1, b2) = key_of(b);
    a0 < b0 || (a0 == b0 && (a1 < b1 || (a1 == b1 && a2 <= b2)))
}

/// `s` with `record` inserted in front of the records at the end that must
/// follow it.
pub open spec fn inserted(s: Seq<DecodedView>, record: DecodedView) -> Seq<DecodedView>
    decreases s.len(),
{
    if s.len() == 0 || in_order(s.last(), record) {
        s.push(record)
    } else {
        inserted(s.drop_last(), record).push(s.last())
    }
}

/// `s` in order, with records of the same key as they stand in `s`.
pub open spec fn sorted(s: Seq<DecodedView>) -> Seq<DecodedView>
    decreases s.len(),
{
    if s.len() == 0 {
        s
    } else {
        inserted(sorted(s.drop_last()), s.last())
    }
}

/// Two ordered sequences as one, with those of `a` first where the keys are the
/// same.
spec fn merged(a: Seq<DecodedView>, b: Seq<DecodedView>) -> Seq<DecodedView>
    decreases a.len() + b.len(),
{
    if b.len() == 0 {
        a
    } else if a.len() == 0 {
        b
    } else if in_order(a.last(), b.last()) {
        merged(a, b.drop_last()).push(b.last())
    } else {
        merged(a.drop_last(), b).push(a.last())
    }
}

/// Merging is as long as its parts, and ends with the end of one of them.
proof fn lemma_merged_last(a: Seq<DecodedView>, b: Seq<DecodedView>)
    ensures
        merged(a, b).len() == a.len() + b.len(),
        a.len() > 0 && (b.len() == 0 || !in_order(a.last(), b.last())) ==> merged(a, b).last()
            == a.last() && merged(a, b).drop_last() == merged(a.drop_last(), b),
        b.len() > 0 && (a.len() == 0 || in_order(a.last(), b.last())) ==> merged(a, b).last()
            == b.last() && merged(a, b).drop_last() == merged(a, b.drop_last()),
    decreases a.len() + b.len(),
{
    if a.len() > 0 && b.len() > 0 {
        if in_order(a.last(), b.last()) {
            lemma_merged_last(a, b.drop_last());
            assert(merged(a, b).drop_last() =~= merged(a, b.drop_last()));
        } else {
            lemma_merged_last(a.drop_last(), b);
            assert(merged(a, b).drop_last() =~= merged(a.drop_last(), b));
        }
    } else if b.len() > 0 {
        assert(merged(a, b.drop_last()) =~= b.drop_last());
    }
}

/// Merging takes an insertion into its second part.
proof fn lemma_merged_inserted(a: Seq<DecodedView>, b: Seq<DecodedView>, record: DecodedView)
    ensures
        merged(a, inserted(b, record)) == inserted(merged(a, b), record),
    decreases a.len() + b.len(),
{
    let more = inserted(b, record);
    lemma_merged_last(a, b);
    if b.len() == 0 || in_order(b.last(), record) {
        assert(more == b.push(record));
        assert(more.drop_last() =~= b);
        if a.len() == 0 {
            assert(merged(a, b) =~= b);
        } else if !in_order(a.last(), record) {
            lemma_merged_inserted(a.drop_last(), b, record);
        }
    } else {
        let shorter = inserted(b.drop_last(), record);
        assert(more == shorter.push(b.last()));
        assert(more.drop_last() =~= shorter);
        if a.len() == 0 {
            assert(merged(a, b) =~= b);
        } else if in_order(a.last(), b.last()) {
            lemma_merged_inserted(a, b.drop_last(), record);
        } else {
            lemma_merged_inserted(a.drop_last(), b, record);
        }
    }
}

/// Merging two sorted parts sorts the whole.
proof fn lemma_merged_sorted(a: Seq<DecodedView>, b: Seq<DecodedView>)
    ensures
        merged(sorted(a), sorted(b)) == sorted(a + b),
    decreases b.len(),
{
    if b.len() == 0 {
        assert(a + b =~= a);
    } else {
        lemma_merged_sorted(a, b.drop_last());
        lemma_merged_inserted(sorted(a), sorted(b.drop_last()), b.last());
        assert((a + b).drop_last() =~= a + b.drop_last());
        assert((a + b).last() == b.last());
    }
}

/// The key that a record is ordered by.
pub fn sort_key(record: &DecodedRecord<'_>) -> (key: (u64, u32, u64))
    ensures
        key == key_of(record@),
{
    match *record {
        DecodedRecord::ContextSwitch { timestamp, cpu_id, seq, .. } => (timestamp, cpu_id, seq),
        DecodedRecord::TraceMarkBegin { timestamp, cpu_id, seq, .. } => (timestamp, cpu_id, seq),
        DecodedRecord::TraceMarkEnd { timestamp, cpu_id, seq, .. } => (timestamp, cpu_id, seq),
    }
}

/// Reports whether `a` may stand in front of `b`.
fn may_precede(a: &DecodedRecord<'_>, b: &DecodedRecord<'_>) -> (yes: bool)
    ensures
        yes == in_order(a@, b@),
{
    let (a0, a1, a2) = sort_key(a);
    let (b0, b1, b2) = sort_key(b);
    a0 < b0 || (a0 == b0 && (a1 < b1 || (a1 == b1 && a2 <= b2)))
}

/// Merges two ordered vectors.
fn merge<'a>(a: Vec<DecodedRecord<'a>>, b: Vec<DecodedRecord<'a>>) -> (out: Vec<
    DecodedRecord<'a>,
>)
    ensures
        decoded_views(out@) == merged(decoded_views(a@), decoded_views(b@)),
{
    let ghost whole = merged(decoded_views(a@), decoded_views(b@));
    let mut left: usize = a.len();
    let mut right: usize = b.len();
    let mut backwards: Vec<DecodedRecord<'a>> = Vec::new();
    proof {
        assert(decoded_views(a@).take(left as int) =~= decoded_views(a@));
        assert(decoded_views(b@).take(right as int) =~= decoded_views(b@));
    }
    while left > 0 || right > 0
        invariant
            left <= a@.len(),
            right <= b@.len(),
            whole =~= merged(
                decoded_views(a@).take(left as int),
                decoded_views(b@).take(right as int),
            ) + decoded_views(backwards@).reverse(),
        decreases left + right,
    {
        let ghost av = decoded_views(a@).take(left as int);
        let ghost bv = decoded_views(b@).take(right as int);
        let ghost done = decoded_views(backwards@);
        proof {
            lemma_merged_last(av, bv);
            if left > 0 {
                assert(av.drop_last() =~= decoded_views(a@).take(left - 1));
            }
            if right > 0 {
                assert(bv.drop_last() =~= decoded_views(b@).take(right - 1));
            }
        }
        let take_right = right > 0 && (left == 0 || may_precede(&a[left - 1], &b[right - 1]));
        let record: DecodedRecord<'a> = if take_right {
            right = right - 1;
            b[right]
        } else {
            left = left - 1;
            a[left]
        };
        backwards.push(record);
        proof {
            assert(decoded_views(backwards@) =~= done.push(record@));
            assert(done.push(record@).reverse() =~= seq![record@] + done.reverse());
            let rest = merged(
                decoded_views(a@).take(left as int),
                decoded_views(b@).take(right as int),
            );
            assert(merged(av, bv) =~= rest.push(record@));
        }
    }
    let mut out: Vec<DecodedRecord<'a>> = Vec::new();
    let mut i: usize = backwards.len();
    while i > 0
        invariant
            i <= backwards@.len(),
            decoded_views(out@) =~= decoded_views(backwards@).reverse().take(
                backwards@.len() - i,
            ),
        decreases i,
    {
        let ghost reversed = decoded_views(backwards@).reverse();
        let ghost done = out@;
        i = i - 1;
        out.push(backwards[i]);
        proof {
            assert(reversed[backwards@.len() - 1 - i] == backwards@[i as int]@);
            assert(decoded_views(out@) =~= decoded_views(done).push(backwards@[i as int]@));
            assert(reversed.take(backwards@.len() - i) =~= reversed.take(
                backwards@.len() - 1 - i,
            ).push(reversed[backwards@.len() - 1 - i]));
        }
    }
    assert(decoded_views(out@) =~= whole);
    out
}

/// Sorts records by timestamp, CPU and sequence number. Records of the same key
/// stay in the order they had.
pub fn sort_records<'a>(records: Vec<DecodedRecord<'a>>) -> (out: Vec<DecodedRecord<'a>>)
    ensures
        decoded_views(out@) == sorted(decoded_views(records@)),
        decoded_views(out@).to_multiset() == decoded_views(records@).to_multiset(),
        forall|i: int, j: int|
            0 <= i < j < out@.len() ==> {
                let a = (#[trigger] out@[i])@;
                let b = (#[trigger] out@[j])@;
                &&& a.timestamp <= b.timestamp
                &&& a.timestamp == b.timestamp ==> a.cpu_id <= b.cpu_id
                &&& a.timestamp == b.timestamp && a.cpu_id == b.cpu_id ==> a.seq <= b.seq
            },
    decreases records@.len(),
{
    let len: usize = records.len();
    if len <= 1 {
        proof {
            let s = decoded_views(records@);
            if len == 1 {
                assert(s.drop_last() =~= Seq::<DecodedView>::empty());
                assert(sorted(s.drop_last()) =~= Seq::<DecodedView>::empty());
                assert(sorted(s) =~= s);
            }
        }
        return records;
    }
    let mut front = records;
    let back = front.split_off(len / 2);
    proof {
        lemma_merged_sorted(decoded_views(front@), decoded_views(back@));
        assert(decoded_views(front@) + decoded_views(back@) =~= decoded_views(records@));
    }
    let front = sort_records(front);
    let back = sort_records(back);
    let out = merge(front, back);
    proof {
        let views = decoded_views(out@);
        law_sorted_by_time(decoded_views(records@));
        assert forall|i: int, j: int| 0 <= i < j < out@.len() implies {
            let a = (#[trigger] out@[i])@;
            let b = (#[trigger] out@[j])@;
            &&& a.timestamp <= b.timestamp
            &&& a.timestamp == b.timestamp ==> a.cpu_id <= b.cpu_id
            &&& a.timestamp == b.timestamp && a.cpu_id == b.cpu_id ==> a.seq <= b.seq
        } by {
            assert(views[i] == out@[i]@ && views[j] == out@[j]@);
        }
    }
    out
}

/// Every two records of `s` are in order.
pub open spec fn all_in_order(s: Seq<DecodedView>) -> bool {
    forall|i: int, j: int| 0 <= i < j < s.len() ==> in_order(#[trigger] s[i], #[trigger] s[j])
}

/// The records of `s` with the given key, in the order they have in `s`.
pub open spec fn with_key(s: Seq<DecodedView>, key: (u64, u32, u64)) -> Seq<DecodedView>
    decreases s.len(),
{
    if s.len() == 0 {
        s
    } else if key_of(s.last()) == key {
        with_key(s.drop_last(), key).push(s.last())
    } else {
        with_key(s.drop_last(), key)
    }
}

/// Inserting a record keeps the order.
proof fn lemma_inserted_in_order(s: Seq<DecodedView>, record: DecodedView)
    requires
        all_in_order(s),
    ensures
        all_in_order(inserted(s, record)),
        inserted(s, record).to_multiset() == s.to_multiset().insert(record),
        forall|other: DecodedView|
            in_order(record, other) && (forall|i: int|
                0 <= i < s.len() ==> in_order(#[trigger] s[i], other)) ==> (forall|i: int|
                0 <= i < inserted(s, record).len() ==> in_order(
                    #[trigger] inserted(s, record)[i],
                    other,
                )),
    decreases s.len(),
{
    broadcast use vstd::seq_lib::group_to_multiset_ensures;

    if s.len() == 0 || in_order(s.last(), record) {
        let t = s.push(record);
        assert forall|i: int, j: int| 0 <= i < j < t.len() implies in_order(
            #[trigger] t[i],
            #[trigger] t[j],
        ) by {
            if j == s.len() && i < s.len() - 1 {
                assert(in_order(s[i], s[s.len() - 1]));
            }
        }
    } else {
        let front = s.drop_last();
        let t = inserted(front, record);
        lemma_inserted_in_order(front, record);
        assert forall|i: int| 0 <= i < front.len() implies in_order(
            #[trigger] front[i],
            s.last(),
        ) by {
            assert(in_order(s[i], s[s.len() - 1]));
        }
        assert(in_order(record, s.last()));
        assert(s =~= front.push(s.last()));
        assert(t.push(s.last()).to_multiset() =~= s.to_multiset().insert(record));
    }
}

/// Sorting puts the records in order and keeps just the records there are.
pub proof fn law_sorted(s: Seq<DecodedView>)
    ensures
        all_in_order(sorted(s)),
        sorted(s).to_multiset() == s.to_multiset(),
        sorted(s).len() == s.len(),
    decreases s.len(),
{
    broadcast use vstd::seq_lib::group_to_multiset_ensures;

    if s.len() > 0 {
        let front = s.drop_last();
        law_sorted(front);
        lemma_inserted_in_order(sorted(front), s.last());
        assert(s =~= front.push(s.last()));
        assert(sorted(s).len() == sorted(s).to_multiset().len());
        assert(s.len() == s.to_multiset().len());
    }
}

/// Sorted records stand in order of time.
///
/// Of any two records, the one that stands in front has no later timestamp; with
/// equal timestamps it has no greater CPU id; and with equal CPU ids too, no
/// greater sequence number. The sorted records are the given ones, each as often
/// as it was given.
pub proof fn law_sorted_by_time(s: Seq<DecodedView>)
    ensures
        forall|i: int, j: int|
            0 <= i < j < sorted(s).len() ==> {
                let a = #[trigger] sorted(s)[i];
                let b = #[trigger] sorted(s)[j];
                &&& a.timestamp <= b.timestamp
                &&& a.timestamp == b.timestamp ==> a.cpu_id <= b.cpu_id
                &&& a.timestamp == b.timestamp && a.cpu_id == b.cpu_id ==> a.seq <= b.seq
            },
        sorted(s).len() == s.len(),
        sorted(s).to_multiset() == s.to_multiset(),
{
    law_sorted(s);
    assert forall|i: int, j: int| 0 <= i < j < sorted(s).len() implies {
        let a = #[trigger] sorted(s)[i];
        let b = #[trigger] sorted(s)[j];
        &&& a.timestamp <= b.timestamp
        &&& a.timestamp == b.timestamp ==> a.cpu_id <= b.cpu_id
        &&& a.timestamp == b.timestamp && a.cpu_id == b.cpu_id ==> a.seq <= b.seq
    } by {
        assert(in_order(sorted(s)[i], sorted(s)[j]));
    }
}

/// Inserting a record puts it behind those of the same key.
proof fn lemma_inserted_stable(s: Seq<DecodedView>, record: DecodedView, key: (u64, u32, u64))
    requires
        all_in_order(s),
    ensures
        with_key(inserted(s, record), key) == with_key(s.push(record), key),
    decreases s.len(),
{
    assert(s.push(record).drop_last() =~= s);
    if s.len() > 0 && !in_order(s.last(), record) {
        let front = s.drop_last();
        let t = inserted(front, record).push(s.last());
        assert forall|i: int, j: int| 0 <= i < j < front.len() implies in_order(
            #[trigger] front[i],
            #[trigger] front[j],
        ) by {
            assert(in_order(s[i], s[j]));
        }
        lemma_inserted_stable(front, record, key);
        assert(t.drop_last() =~= inserted(front, record));
        assert(front.push(record).drop_last() =~= front);
        assert(key_of(s.last()) != key_of(record));
        reveal_with_fuel(with_key, 3);
    }
}

/// Sorting is stable: for every key, the records of that key keep the order
/// they had.
pub proof fn law_sorted_stable(s: Seq<DecodedView>, key: (u64, u32, u64))
    ensures
        with_key(sorted(s), key) == with_key(s, key),
    decreases s.len(),
{
    if s.len() > 0 {
        let front = s.drop_last();
        law_sorted_stable(front, key);
        law_sorted(front);
        lemma_inserted_stable(sorted(front), s.last(), key);
        assert(sorted(front).push(s.last()).drop_last() =~= sorted(front));
    }
}

/// The records of a key, taken out one by one, are those that a filter leaves.
proof fn lemma_with_key_filter(s: Seq<DecodedView>, timestamp: u64, cpu_id: u32, seq: u64)
    ensures
        with_key(s, (timestamp, cpu_id, seq)) == agreeing(s, timestamp, cpu_id, seq),
    decreases s.len(),
{
    reveal(Seq::filter);
    if s.len() > 0 {
        lemma_with_key_filter(s.drop_last(), timestamp, cpu_id, seq);
    } else {
        assert(s =~= Seq::<DecodedView>::empty());
    }
}

/// The records of `s` with the given timestamp, CPU id and sequence number, in the
/// order they have in `s`.
pub open spec fn agreeing(s: Seq<DecodedView>, timestamp: u64, cpu_id: u32, seq: u64) -> Seq<
    DecodedView,
> {
    s.filter(|r: DecodedView| r.timestamp == timestamp && r.cpu_id == cpu_id && r.seq == seq)
}

/// Records of the same timestamp, CPU id and sequence number stand in the order in
/// which they were given.
pub proof fn law_sorted_keeps_ties(
    s: Seq<DecodedView>,
    timestamp: u64,
    cpu_id: u32,
    seq: u64,
)
    ensures
        agreeing(sorted(s), timestamp, cpu_id, seq) == agreeing(s, timestamp, cpu_id, seq),
{
    law_sorted_stable(s, (timestamp, cpu_id, seq));
    lemma_with_key_filter(s, timestamp, cpu_id, seq);
    lemma_with_key_filter(sorted(s), timestamp, cpu_id, seq);
}

/// No two records of `s` have the same key.
pub open spec fn distinct_keys(s: Seq<DecodedView>) -> bool {
    forall|i: int, j: int|
        0 <= i < j < s.len() ==> key_of(#[trigger] s[i]) != key_of(#[trigger] s[j])
}

/// Two ordered sequences of the same records are equal, if no two of the records
/// have the same key.
proof fn lemma_order_unique(a: Seq<DecodedView>, b: Seq<DecodedView>)
    requires
        all_in_order(a),
        all_in_order(b),
        a.to_multiset() == b.to_multiset(),
        distinct_keys(b),
    ensures
        a == b,
    decreases a.len(),
{
    broadcast use vstd::seq_lib::group_to_multiset_ensures;

    assert(a.len() == a.to_multiset().len());
    assert(b.len() == b.to_multiset().len());
    if a.len() == 0 {
        assert(a =~= b);
    } else {
        let n = a.len() - 1;
        let x = a.last();
        let y = b.last();
        assert(a.contains(x) && b.contains(y)) by {
            assert(a[n] == x && b[n] == y);
        }
        assert(b.contains(x)) by {
            assert(b.to_multiset().count(x) > 0);
        }
        assert(a.contains(y)) by {
            assert(a.to_multiset().count(y) > 0);
        }
        let i = choose|i: int| 0 <= i < b.len() && b[i] == x;
        let j = choose|j: int| 0 <= j < a.len() && a[j] == y;
        if i < n {
            assert(in_order(b[i], b[n]));
            if j < n {
                assert(in_order(a[j], a[n]));
            }
            assert(key_of(b[i]) != key_of(b[n]));
            assert(false);
        }
        assert(x == y);
        assert(a =~= a.drop_last().push(x));
        assert(b =~= b.drop_last().push(x));
        assert(a.drop_last().to_multiset() =~= a.to_multiset().remove(x));
        assert(b.drop_last().to_multiset() =~= b.to_multiset().remove(x));
        assert forall|p: int, q: int| 0 <= p < q < a.drop_last().len() implies in_order(
            #[trigger] a.drop_last()[p],
            #[trigger] a.drop_last()[q],
        ) by {
            assert(in_order(a[p], a[q]));
        }
        assert forall|p: int, q: int| 0 <= p < q < b.drop_last().len() implies in_order(
            #[trigger] b.drop_last()[p],
            #[trigger] b.drop_last()[q],
        ) && key_of(b.drop_last()[p]) != key_of(b.drop_last()[q]) by {
            assert(in_order(b[p], b[q]));
            assert(key_of(b[p]) != key_of(b[q]));
        }
        lemma_order_unique(a.drop_last(), b.drop_last());
    }
}

/// Sequences of the same records, among which each key comes once, have distinct
/// keys in any order.
proof fn lemma_distinct_reordered(a: Seq<DecodedView>, b: Seq<DecodedView>)
    requires
        a.to_multiset() == b.to_multiset(),
        distinct_keys(a),
    ensures
        distinct_keys(b),
{
    broadcast use vstd::seq_lib::group_to_multiset_ensures;

    assert forall|i: int, j: int| 0 <= i < j < b.len() implies key_of(#[trigger] b[i]) != key_of(
        #[trigger] b[j],
    ) by {
        if key_of(b[i]) == key_of(b[j]) {
            let x = b[i];
            let y = b[j];
            assert(b.contains(x) && b.contains(y));
            assert(a.to_multiset().count(x) > 0 && a.to_multiset().count(y) > 0);
            assert(a.contains(x) && a.contains(y));
            let p = choose|p: int| 0 <= p < a.len() && a[p] == x;
            let q = choose|q: int| 0 <= q < a.len() && a[q] == y;
            if p == q {
                lemma_distinct_count(a, x);
                lemma_twice_count(b, i, j);
            } else if p < q {
                assert(key_of(a[p]) != key_of(a[q]));
            } else {
                assert(key_of(a[q]) != key_of(a[p]));
            }
        }
    }
}

/// A record comes at most once in a sequence with distinct keys.
proof fn lemma_distinct_count(s: Seq<DecodedView>, record: DecodedView)
    requires
        distinct_keys(s),
    ensures
        s.to_multiset().count(record) <= 1,
    decreases s.len(),
{
    broadcast use vstd::seq_lib::group_to_multiset_ensures;

    if s.len() > 0 {
        let front = s.drop_last();
        assert forall|i: int, j: int| 0 <= i < j < front.len() implies key_of(
            #[trigger] front[i],
        ) != key_of(#[trigger] front[j]) by {
            assert(key_of(s[i]) != key_of(s[j]));
        }
        lemma_distinct_count(front, record);
        assert(s =~= front.push(s.last()));
        if s.last() == record && front.to_multiset().count(record) > 0 {
            assert(front.contains(record));
            let p = choose|p: int| 0 <= p < front.len() && front[p] == record;
            assert(key_of(s[p]) != key_of(s[s.len() - 1]));
        }
    }
}

/// A record that stands at two places counts twice.
proof fn lemma_twice_count(s: Seq<DecodedView>, i: int, j: int)
    requires
        0 <= i < j < s.len(),
        s[i] == s[j],
    ensures
        s.to_multiset().count(s[i]) >= 2,
    decreases s.len(),
{
    broadcast use vstd::seq_lib::group_to_multiset_ensures;

    let front = s.drop_last();
    assert(s =~= front.push(s.last()));
    if j == s.len() - 1 {
        assert(front[i] == s[i]);
        assert(front.contains(s[i]));
        assert(front.to_multiset().count(s[i]) > 0);
    } else {
        assert(front[i] == s[i] && front[j] == s[j]);
        lemma_twice_count(front, i, j);
    }
}

/// The order in which records come does not matter: sequences of the same records
/// are sorted into the same sequence, if no two of the records have the same key.
pub proof fn law_sorted_ignores_order(a: Seq<DecodedView>, b: Seq<DecodedView>)
    requires
        a.to_multiset() == b.to_multiset(),
        distinct_keys(a),
    ensures
        sorted(a) == sorted(b),
{
    law_sorted(a);
    law_sorted(b);
    lemma_distinct_reordered(a, sorted(b));
    lemma_order_unique(sorted(a), sorted(b));
}

} // verus!
