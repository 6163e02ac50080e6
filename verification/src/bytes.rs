//! Little-endian integers and byte ranges.
//!
//! Every integer that the library stores in memory is little-endian. The
//! specification side models a stored integer as the natural number that its
//! bytes denote; the executable side reads and writes it one byte at a time.

use vstd::prelude::*;

verus! {

/// 256 to the power `n`: the number of values that `n` bytes can hold.
pub open spec fn pow256(n: nat) -> nat
    decreases n,
{
    if n == 0 {
        1
    } else {
        256 * pow256((n - 1) as nat)
    }
}

/// The number that `s` denotes, least significant byte first.
pub open spec fn le_value(s: Seq<u8>) -> nat
    decreases s.len(),
{
    if s.len() == 0 {
        0
    } else {
        s[0] as nat + 256 * le_value(s.drop_first())
    }
}

/// The low `n` bytes of `v`, least significant byte first.
pub open spec fn le_bytes(v: nat, n: nat) -> Seq<u8>
    decreases n,
{
    if n == 0 {
        Seq::empty()
    } else {
        seq![(v % 256) as u8] + le_bytes(v / 256, (n - 1) as nat)
    }
}

/// The little-endian `u16` stored at `offset`.
pub open spec fn u16_at(b: Seq<u8>, offset: int) -> u16 {
    le_value(b.subrange(offset, offset + 2)) as u16
}

/// The little-endian `u32` stored at `offset`.
pub open spec fn u32_at(b: Seq<u8>, offset: int) -> u32 {
    le_value(b.subrange(offset, offset + 4)) as u32
}

/// The little-endian `u64` stored at `offset`.
pub open spec fn u64_at(b: Seq<u8>, offset: int) -> u64 {
    le_value(b.subrange(offset, offset + 8)) as u64
}

/// `b` with the bytes from `at` on replaced by `chunk`.
pub open spec fn overwrite(b: Seq<u8>, at: int, chunk: Seq<u8>) -> Seq<u8> {
    Seq::new(
        b.len(),
        |i: int|
            if at <= i < at + chunk.len() {
                chunk[i - at]
            } else {
                b[i]
            },
    )
}

/// `n` zero bytes.
pub open spec fn zeros(n: nat) -> Seq<u8> {
    Seq::new(n, |i: int| 0u8)
}

/// The least multiple of `align` that is not below `value`.
pub open spec fn aligned(value: int, align: int) -> int {
    ((value + align - 1) / align) * align
}

/// `le_bytes` has the requested length.
pub broadcast proof fn lemma_le_bytes_len(v: nat, n: nat)
    ensures
        #[trigger] le_bytes(v, n).len() == n,
    decreases n,
{
    if n > 0 {
        lemma_le_bytes_len(v / 256, (n - 1) as nat);
    }
}

/// The number that `n` bytes denote is below 256 to the power `n`.
pub proof fn lemma_le_value_bound(s: Seq<u8>)
    ensures
        le_value(s) < pow256(s.len()),
    decreases s.len(),
{
    if s.len() > 0 {
        lemma_le_value_bound(s.drop_first());
        assert(pow256(s.len()) == 256 * pow256((s.len() - 1) as nat));
    }
}

/// The powers of 256 that bound the stored integer widths.
pub proof fn lemma_pow256_widths()
    ensures
        pow256(2) == 0x1_0000,
        pow256(4) == 0x1_0000_0000,
        pow256(8) == 0x1_0000_0000_0000_0000,
{
    reveal_with_fuel(pow256, 9);
}

/// Reading back the bytes of a number gives the number, if they can hold it.
pub proof fn lemma_le_value_of_bytes(v: nat, n: nat)
    requires
        v < pow256(n),
    ensures
        le_value(le_bytes(v, n)) == v,
    decreases n,
{
    if n > 0 {
        let s = le_bytes(v, n);
        lemma_le_bytes_len(v, n);
        assert(pow256(n) == 256 * pow256((n - 1) as nat));
        assert(v / 256 < pow256((n - 1) as nat));
        lemma_le_value_of_bytes(v / 256, (n - 1) as nat);
        assert(s.drop_first() =~= le_bytes(v / 256, (n - 1) as nat));
    }
}

/// The bytes of the number that `s` denotes are `s`.
pub proof fn lemma_le_bytes_of_value(s: Seq<u8>)
    ensures
        le_bytes(le_value(s), s.len()) == s,
    decreases s.len(),
{
    if s.len() > 0 {
        let rest = s.drop_first();
        lemma_le_bytes_of_value(rest);
        let v = le_value(s);
        assert(v % 256 == s[0] as nat);
        assert(v / 256 == le_value(rest));
        assert(le_bytes(v, s.len()) =~= seq![s[0]] + rest);
        assert(seq![s[0]] + rest =~= s);
    } else {
        assert(le_bytes(le_value(s), s.len()) =~= s);
    }
}

/// A `u16`, `u32` or `u64` is read back unchanged from its bytes.
pub proof fn lemma_int_round_trip()
    ensures
        forall|v: u16| #[trigger] le_value(le_bytes(v as nat, 2)) == v,
        forall|v: u32| #[trigger] le_value(le_bytes(v as nat, 4)) == v,
        forall|v: u64| #[trigger] le_value(le_bytes(v as nat, 8)) == v,
{
    lemma_pow256_widths();
    assert forall|v: u16| #[trigger] le_value(le_bytes(v as nat, 2)) == v by {
        lemma_le_value_of_bytes(v as nat, 2);
    }
    assert forall|v: u32| #[trigger] le_value(le_bytes(v as nat, 4)) == v by {
        lemma_le_value_of_bytes(v as nat, 4);
    }
    assert forall|v: u64| #[trigger] le_value(le_bytes(v as nat, 8)) == v by {
        lemma_le_value_of_bytes(v as nat, 8);
    }
}

/// Reads the `n`-byte integer at `offset`.
fn read_le(bytes: &[u8], offset: usize, n: usize) -> (v: u64)
    requires
        n <= 8,
        offset + n <= bytes@.len(),
    ensures
        v == le_value(bytes@.subrange(offset as int, offset + n)),
    opens_invariants none
    no_unwind
{
    let mut i: usize = n;
    let mut v: u64 = 0;
    proof {
        lemma_pow256_widths();
        reveal_with_fuel(pow256, 9);
    }
    while i > 0
        invariant
            i <= n <= 8,
            offset + n <= bytes.len(),
            v == le_value(bytes@.subrange(offset + i, offset + n)),
        decreases i,
    {
        let ghost before = bytes@.subrange(offset + i, offset + n);
        i = i - 1;
        let ghost after = bytes@.subrange(offset + i, offset + n);
        proof {
            assert(after.drop_first() =~= before);
            lemma_le_value_bound(after);
            reveal_with_fuel(pow256, 9);
            assert(le_value(after) == after[0] as nat + 256 * le_value(before));
        }
        v = bytes[offset + i] as u64 + 256 * v;
    }
    v
}

/// Writes the low `n` bytes of `value` at `offset`.
fn write_le(bytes: &mut [u8], offset: usize, value: u64, n: usize)
    requires
        offset + n <= old(bytes)@.len(),
    ensures
        final(bytes)@ == overwrite(old(bytes)@, offset as int, le_bytes(value as nat, n as nat)),
    opens_invariants none
    no_unwind
{
    let ghost start = bytes@;
    let ghost whole = le_bytes(value as nat, n as nat);
    let mut i: usize = 0;
    let mut v: u64 = value;
    broadcast use lemma_le_bytes_len;

    while i < n
        invariant
            i <= n,
            offset + n <= bytes.len(),
            bytes@.len() == start.len(),
            whole.len() == n,
            whole == bytes@.subrange(offset as int, offset + i) + le_bytes(
                v as nat,
                (n - i) as nat,
            ),
            forall|j: int|
                0 <= j < start.len() && !(offset <= j < offset + i) ==> bytes@[j] == start[j],
        decreases n - i,
    {
        let ghost before = bytes@.subrange(offset as int, offset + i);
        let ghost tail = le_bytes(v as nat, (n - i) as nat);
        bytes[offset + i] = (v % 256) as u8;
        v = v / 256;
        i = i + 1;
        proof {
            assert(tail =~= seq![tail[0]] + le_bytes(v as nat, (n - i) as nat));
            assert(bytes@.subrange(offset as int, offset + i) =~= before.push(tail[0]));
            assert(whole =~= bytes@.subrange(offset as int, offset + i) + le_bytes(
                v as nat,
                (n - i) as nat,
            ));
        }
    }
    proof {
        assert(whole =~= bytes@.subrange(offset as int, offset + n));
        assert(bytes@ =~= overwrite(start, offset as int, whole)) by {
            assert forall|j: int| 0 <= j < start.len() implies bytes@[j] == overwrite(
                start,
                offset as int,
                whole,
            )[j] by {
                if offset <= j < offset + n {
                    assert(whole[j - offset] == bytes@.subrange(offset as int, offset + n)[j - offset]);
                }
            }
        }
    }
}

/// Reads the `u16` at `offset`.
pub fn read_u16_at(bytes: &[u8], offset: usize) -> (v: u16)
    requires
        offset + 2 <= bytes@.len(),
    ensures
        v == u16_at(bytes@, offset as int),
        v == le_value(bytes@.subrange(offset as int, offset + 2)),
{
    proof {
        lemma_pow256_widths();
        lemma_le_value_bound(bytes@.subrange(offset as int, offset + 2));
    }
    read_le(bytes, offset, 2) as u16
}

/// Reads the `u32` at `offset`.
pub fn read_u32_at(bytes: &[u8], offset: usize) -> (v: u32)
    requires
        offset + 4 <= bytes@.len(),
    ensures
        v == u32_at(bytes@, offset as int),
        v == le_value(bytes@.subrange(offset as int, offset + 4)),
{
    proof {
        lemma_pow256_widths();
        lemma_le_value_bound(bytes@.subrange(offset as int, offset + 4));
    }
    read_le(bytes, offset, 4) as u32
}

/// Reads the `u64` at `offset`.
pub fn read_u64_at(bytes: &[u8], offset: usize) -> (v: u64)
    requires
        offset + 8 <= bytes@.len(),
    ensures
        v == u64_at(bytes@, offset as int),
        v == le_value(bytes@.subrange(offset as int, offset + 8)),
    opens_invariants none
    no_unwind
{
    read_le(bytes, offset, 8)
}

/// Writes `value` as two bytes at `offset`.
pub fn write_u16_at(bytes: &mut [u8], offset: usize, value: u16)
    requires
        offset + 2 <= old(bytes)@.len(),
    ensures
        final(bytes)@ == overwrite(old(bytes)@, offset as int, le_bytes(value as nat, 2)),
    opens_invariants none
    no_unwind
{
    write_le(bytes, offset, value as u64, 2)
}

/// Writes `value` as four bytes at `offset`.
pub fn write_u32_at(bytes: &mut [u8], offset: usize, value: u32)
    requires
        offset + 4 <= old(bytes)@.len(),
    ensures
        final(bytes)@ == overwrite(old(bytes)@, offset as int, le_bytes(value as nat, 4)),
    opens_invariants none
    no_unwind
{
    write_le(bytes, offset, value as u64, 4)
}

/// Writes `value` as eight bytes at `offset`.
pub fn write_u64_at(bytes: &mut [u8], offset: usize, value: u64)
    requires
        offset + 8 <= old(bytes)@.len(),
    ensures
        final(bytes)@ == overwrite(old(bytes)@, offset as int, le_bytes(value as nat, 8)),
    opens_invariants none
    no_unwind
{
    write_le(bytes, offset, value, 8)
}

/// Copies the first `len` bytes of `src` to `at`.
pub fn copy_first(bytes: &mut [u8], at: usize, src: &[u8], len: usize)
    requires
        len <= src@.len(),
        at + len <= old(bytes)@.len(),
    ensures
        final(bytes)@ == overwrite(old(bytes)@, at as int, src@.take(len as int)),
    opens_invariants none
    no_unwind
{
    let ghost start = bytes@;
    let mut i: usize = 0;
    while i < len
        invariant
            i <= len <= src@.len(),
            at + len <= bytes.len(),
            bytes@.len() == start.len(),
            forall|j: int|
                0 <= j < start.len() ==> bytes@[j] == (if at <= j < at + i {
                    src@[j - at]
                } else {
                    start[j]
                }),
        decreases len - i,
    {
        bytes[at + i] = src[i];
        i = i + 1;
    }
    assert(bytes@ =~= overwrite(start, at as int, src@.take(len as int)));
}

/// Copies `src` to `at`.
pub fn copy_at(bytes: &mut [u8], at: usize, src: &[u8])
    requires
        at + src@.len() <= old(bytes)@.len(),
    ensures
        final(bytes)@ == overwrite(old(bytes)@, at as int, src@),
{
    copy_first(bytes, at, src, src.len());
    assert(src@.take(src@.len() as int) =~= src@);
}

/// Clears the bytes from `from` up to `to`.
pub fn fill_zero(bytes: &mut [u8], from: usize, to: usize)
    requires
        from <= to <= old(bytes)@.len(),
    ensures
        final(bytes)@ == overwrite(old(bytes)@, from as int, zeros((to - from) as nat)),
    opens_invariants none
    no_unwind
{
    let ghost start = bytes@;
    let mut i: usize = from;
    while i < to
        invariant
            from <= i <= to <= bytes@.len(),
            bytes@.len() == start.len(),
            forall|j: int|
                0 <= j < start.len() ==> bytes@[j] == (if from <= j < i {
                    0u8
                } else {
                    start[j]
                }),
        decreases to - i,
    {
        bytes[i] = 0;
        i = i + 1;
    }
    assert(bytes@ =~= overwrite(start, from as int, zeros((to - from) as nat)));
}

/// Rounds `value` up to a multiple of `align`.
pub fn align_up(value: usize, align: usize) -> (r: usize)
    requires
        align > 0,
        value + align - 1 <= usize::MAX,
    ensures
        r == aligned(value as int, align as int),
        value <= r < value + align,
        r as int % align as int == 0,
{
    let sum: usize = value + (align - 1);
    proof {
        let s = sum as int;
        let a = align as int;
        vstd::arithmetic::div_mod::lemma_fundamental_div_mod(s, a);
        vstd::arithmetic::div_mod::lemma_mod_bound(s, a);
        vstd::arithmetic::mul::lemma_mul_is_commutative(a, s / a);
        vstd::arithmetic::div_mod::lemma_mod_multiples_basic(s / a, a);
        vstd::arithmetic::div_mod::lemma_div_pos_is_pos(s, a);
        vstd::arithmetic::mul::lemma_mul_nonnegative(s / a, a);
    }
    (sum / align) * align
}

/// Stored integers are little-endian: each byte counts 256 times as much as the
/// byte in front of it.
pub proof fn law_little_endian(b: Seq<u8>, o: int)
    ensures
        0 <= o && o + 2 <= b.len() ==> u16_at(b, o) == b[o] + 0x100 * b[o + 1],
        0 <= o && o + 4 <= b.len() ==> u32_at(b, o) == b[o] + 0x100 * b[o + 1] + 0x1_0000 * b[o
            + 2] + 0x100_0000 * b[o + 3],
        0 <= o && o + 8 <= b.len() ==> u64_at(b, o) == b[o] + 0x100 * b[o + 1] + 0x1_0000 * b[o
            + 2] + 0x100_0000 * b[o + 3] + 0x1_0000_0000 * b[o + 4] + 0x100_0000_0000 * b[o + 5]
            + 0x1_0000_0000_0000 * b[o + 6] + 0x100_0000_0000_0000 * b[o + 7],
{
    reveal_with_fuel(le_value, 9);
    lemma_pow256_widths();
    if 0 <= o && o + 2 <= b.len() {
        let s = b.subrange(o, o + 2);
        lemma_le_value_bound(s);
        assert(s.drop_first()[0] == b[o + 1]);
    }
    if 0 <= o && o + 4 <= b.len() {
        let s = b.subrange(o, o + 4);
        lemma_le_value_bound(s);
        let s1 = s.drop_first();
        let s2 = s1.drop_first();
        let s3 = s2.drop_first();
        assert(s1[0] == b[o + 1] && s2[0] == b[o + 2] && s3[0] == b[o + 3]);
    }
    if 0 <= o && o + 8 <= b.len() {
        let s = b.subrange(o, o + 8);
        lemma_le_value_bound(s);
        let s1 = s.drop_first();
        let s2 = s1.drop_first();
        let s3 = s2.drop_first();
        let s4 = s3.drop_first();
        let s5 = s4.drop_first();
        let s6 = s5.drop_first();
        let s7 = s6.drop_first();
        assert(s1[0] == b[o + 1] && s2[0] == b[o + 2] && s3[0] == b[o + 3] && s4[0] == b[o + 4]);
        assert(s5[0] == b[o + 5] && s6[0] == b[o + 6] && s7[0] == b[o + 7]);
    }
}

/// Aligning gives the least multiple of the alignment that is not below the value.
pub proof fn law_aligned(value: int, align: int)
    requires
        0 <= value,
        0 < align,
    ensures
        aligned(value, align) % align == 0,
        value <= aligned(value, align) < value + align,
{
    let n = (value + align - 1) / align;
    vstd::arithmetic::div_mod::lemma_fundamental_div_mod(value + align - 1, align);
    vstd::arithmetic::div_mod::lemma_mod_bound(value + align - 1, align);
    vstd::arithmetic::div_mod::lemma_mod_multiples_basic(n, align);
    assert(align * n == n * align) by (nonlinear_arith);
}

/// Overwriting puts a chunk where it belongs and leaves all other bytes alone.
pub proof fn law_overwrite(b: Seq<u8>, at: int, chunk: Seq<u8>)
    requires
        0 <= at,
        at + chunk.len() <= b.len(),
    ensures
        overwrite(b, at, chunk) == b.take(at) + chunk + b.skip(at + chunk.len()),
        forall|n: nat, i: int| 0 <= i < n ==> #[trigger] zeros(n)[i] == 0,
        forall|n: nat| #[trigger] zeros(n).len() == n,
{
    assert(overwrite(b, at, chunk) =~= b.take(at) + chunk + b.skip(at + chunk.len()));
}

} // verus!
