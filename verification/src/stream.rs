//! Reading the records of one ring buffer.

use vstd::prelude::*;

use crate::payload::{RawRecord, RecordView};
use crate::record;
use crate::record::{decode_header, RecordKind, RECORD_HEADER_SIZE};

verus! {

/// Where a cursor at `pos` stands after `len` bytes of a ring of `cap` bytes.
pub open spec fn advance(pos: int, len: int, cap: int) -> int {
    if pos + len >= cap {
        pos + len - cap
    } else {
        pos + len
    }
}

/// The records that a reader finds in `ring` when `left` bytes are readable
/// from `pos` on, oldest first.
///
/// The reader skips padding records and a tail too short for a header. It stops
/// at the end of the readable bytes and at anything malformed: a cursor outside
/// the ring, an unknown kind, or a length that is too short or does not fit.
pub open spec fn read_records(ring: Seq<u8>, pos: int, left: int) -> Seq<RecordView>
    decreases left, pos,
{
    let cap = ring.len() as int;
    if left < RECORD_HEADER_SIZE || !(0 <= pos <= cap) || cap == 0 {
        Seq::empty()
    } else if cap - pos < RECORD_HEADER_SIZE {
        read_records(
            ring,
            0,
            if left <= cap - pos {
                0
            } else {
                left - (cap - pos)
            },
        )
    } else {
        match record::header_of(ring.subrange(pos, pos + RECORD_HEADER_SIZE)) {
            None => Seq::empty(),
            Some(header) => {
                let len = header.len as int;
                if len == 0 || len > left || len > cap - pos {
                    Seq::empty()
                } else if header.kind == RecordKind::Padding {
                    read_records(ring, advance(pos, len, cap), left - len)
                } else if len < RECORD_HEADER_SIZE {
                    Seq::empty()
                } else {
                    seq![
                        RecordView {
                            header,
                            payload: ring.subrange(pos + RECORD_HEADER_SIZE, pos + len),
                        },
                    ] + read_records(ring, advance(pos, len, cap), left - len)
                }
            },
        }
    }
}

/// The views of a sequence of raw records.
pub open spec fn record_views(records: Seq<RawRecord<'_>>) -> Seq<RecordView> {
    Seq::new(records.len(), |i: int| records[i]@)
}

/// Cursor over the raw binary records in one CPU stream.
pub struct RecordIter<'a> {
    /// Backing buffer being scanned.
    bytes: &'a [u8],
    /// Current byte offset in the backing buffer.
    pos: usize,
    /// Remaining readable bytes.
    remaining: usize,
}

impl<'a> RecordIter<'a> {
    /// The records that are still to come.
    pub closed spec fn records(self) -> Seq<RecordView> {
        read_records(self.bytes@, self.pos as int, self.remaining as int)
    }

    /// Starts at `pos` of `bytes`, with `remaining` readable bytes.
    pub fn new(bytes: &'a [u8], pos: usize, remaining: usize) -> (iter: Self)
        ensures
            iter.records() == read_records(bytes@, pos as int, remaining as int),
    {
        RecordIter { bytes, pos, remaining }
    }

    /// Advances to the next non-padding record.
    ///
    /// # Returns
    ///
    /// Returns `Some(RawRecord)` while a well-formed record is available.
    /// Returns `None` when the stream is exhausted or malformed.
    ///
    /// # Side Effects
    ///
    /// Advances this cursor. It does not mutate the source trace buffer.
    pub fn next(&mut self) -> (record: Option<RawRecord<'a>>)
        ensures
            match record {
                Some(record) => old(self).records() == seq![record@] + final(self).records(),
                None => old(self).records().len() == 0 && final(self).records().len() == 0,
            },
    {
        let ghost all = self.records();
        loop
            invariant
                self.records() == all,
                all == old(self).records(),
            decreases self.remaining, self.pos,
        {
            let cap: usize = self.bytes.len();
            if self.remaining < RECORD_HEADER_SIZE || cap == 0 || self.pos > cap {
                return None;
            }
            if cap - self.pos < RECORD_HEADER_SIZE {
                self.remaining = self.remaining.saturating_sub(cap - self.pos);
                self.pos = 0;
                continue;
            }
            let header = match decode_header(&self.bytes[self.pos..self.pos + RECORD_HEADER_SIZE]) {
                Some(header) => header,
                None => {
                    return None;
                },
            };
            let len = header.len as usize;
            if len == 0 || len > self.remaining || len > cap - self.pos {
                return None;
            }
            let padding = header.kind == RecordKind::Padding;
            if !padding && len < RECORD_HEADER_SIZE {
                return None;
            }
            let start: usize = self.pos;
            let end: usize = self.pos + len;
            proof {
                lemma_wrap(end as int, cap as int);
            }
            self.pos = end % cap;
            self.remaining = self.remaining - len;
            if padding {
                continue;
            }
            return Some(RawRecord { header, payload: &self.bytes[start + RECORD_HEADER_SIZE..end] });
        }
    }

    /// Collects the records that are still to come.
    pub fn collect(self) -> (records: Vec<RawRecord<'a>>)
        ensures
            record_views(records@) == self.records(),
    {
        let ghost all = self.records();
        let mut rest = self;
        let mut out: Vec<RawRecord<'a>> = Vec::new();
        loop
            invariant
                all == self.records(),
                all == record_views(out@) + rest.records(),
            decreases rest.records().len(),
        {
            match rest.next() {
                Some(record) => {
                    let ghost before = out@;
                    let ghost tail = rest.records();
                    out.push(record);
                    proof {
                        assert(record_views(out@) =~= record_views(before).push(record@));
                        assert(all =~= record_views(out@) + tail);
                    }
                },
                None => {
                    assert(record_views(out@) =~= all);
                    return out;
                },
            }
        }
    }
}

/// Reducing a position that may stand at the end of a ring wraps it.
pub proof fn lemma_wrap(end: int, cap: int)
    requires
        0 <= end <= cap,
        0 < cap,
    ensures
        end % cap == (if end == cap {
            0
        } else {
            end
        }),
{
    if end == cap {
        vstd::arithmetic::div_mod::lemma_mod_self_0(cap);
    } else {
        vstd::arithmetic::div_mod::lemma_small_mod(end as nat, cap as nat);
    }
}

/// How a reader goes through a ring.
///
/// It finds nothing where fewer than sixteen bytes are left. It goes on at the front
/// where fewer than sixteen bytes are in front of the end. Otherwise the bytes at its
/// position must have the kind of a record in the third byte, and in the first two a
/// length that is neither zero nor exceeds what is left or the end of the ring; if
/// not, it finds nothing more. It skips padding, which has the kind 255. Any other
/// record must be at least as long as a header; the reader finds it, with the bytes
/// behind the header as its payload, and goes on behind it.
pub proof fn law_reader_goes_on(ring: Seq<u8>, pos: int, left: int)
    requires
        0 <= pos <= ring.len(),
        ring.len() > 0,
    ensures
        ({
            let found = read_records(ring, pos, left);
            let cap = ring.len() as int;
            let kind = ring[pos + 2];
            let len = ring[pos] + 256 * ring[pos + 1];
            let end = if pos + len == cap {
                0
            } else {
                pos + len
            };
            if left < 16 {
                found.len() == 0
            } else if cap - pos < 16 {
                found == read_records(
                    ring,
                    0,
                    if left < cap - pos {
                        0
                    } else {
                        left - (cap - pos)
                    },
                )
            } else if !(1 <= kind <= 6 || kind == 255) || len == 0 || len > left || pos + len > cap {
                found.len() == 0
            } else if kind == 255 {
                found == read_records(ring, end, left - len)
            } else if len < 16 {
                found.len() == 0
            } else {
                &&& found.len() == 1 + read_records(ring, end, left - len).len()
                &&& found[0].header.len == len
                &&& Some(found[0].header) == record::header_of(ring.subrange(pos, pos + 16))
                &&& found[0].payload == ring.subrange(pos + 16, pos + len)
                &&& found.skip(1) == read_records(ring, end, left - len)
            }
        }),
{
    let cap = ring.len() as int;
    if left >= 16 && cap - pos >= 16 {
        let s = ring.subrange(pos, pos + 16);
        record::law_header_is_read(s);
        crate::bytes::law_little_endian(s, 0);
        let len = crate::bytes::u16_at(s, 0) as int;
        let rest = read_records(ring, advance(pos, len, cap), left - len);
        let found = read_records(ring, pos, left);
        if found.len() > 0 && s[2] != 255 {
            assert(found.skip(1) =~= rest);
        }
    }
}

} // verus!
