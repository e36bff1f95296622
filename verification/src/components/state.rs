//! The byte encoding of run-time state: one byte per bit, numbers little-endian. Bytes that are
//! missing read as zero or as a given default.
use vstd::prelude::*;
use crate::plugin_abi::{Bit, Signal};

verus! {

pub open spec fn byte_of(b: Bit) -> u8 {
    match b {
        Bit::Zero => 0,
        Bit::One => 1,
        Bit::Unknown => 2,
        Bit::Error => 3,
    }
}

/// The bit a byte stands for; a byte that stands for none reads as `Zero`.
pub open spec fn bit_from(b: u8) -> Bit {
    if b == 1 {
        Bit::One
    } else if b == 2 {
        Bit::Unknown
    } else if b == 3 {
        Bit::Error
    } else {
        Bit::Zero
    }
}

/// One byte per bit.
pub open spec fn bytes_of(s: Seq<Bit>) -> Seq<u8> {
    Seq::new(s.len(), |i: int| byte_of(s[i]))
}

/// The bit at byte `i`, or a default beyond the end.
pub open spec fn bit_at_byte(s: Seq<u8>, i: int, missing: Bit) -> Bit {
    if 0 <= i < s.len() {
        bit_from(s[i])
    } else {
        missing
    }
}

/// The `n` bits from byte `from` on.
pub open spec fn bits_at(s: Seq<u8>, from: int, n: nat, missing: Bit) -> Seq<Bit> {
    Seq::new(n, |i: int| bit_at_byte(s, from + i, missing))
}

/// A number in four bytes, least significant first.
pub open spec fn le32(v: nat) -> Seq<u8> {
    seq![
        (v % 256) as u8,
        ((v / 256) % 256) as u8,
        ((v / 65536) % 256) as u8,
        ((v / 16777216) % 256) as u8,
    ]
}

/// A number in eight bytes, least significant first.
pub open spec fn le64(v: nat) -> Seq<u8> {
    le32(v % 4294967296) + le32(v / 4294967296)
}

/// The four-byte number at `off`, or zero where it does not fit.
pub open spec fn u32_at(s: Seq<u8>, off: int) -> u32 {
    if 0 <= off && off + 4 <= s.len() {
        (s[off] + 256 * s[off + 1] + 65536 * s[off + 2] + 16777216 * s[off + 3]) as u32
    } else {
        0
    }
}

/// The eight-byte number at `off`, or zero where it does not fit.
pub open spec fn u64_at(s: Seq<u8>, off: int) -> u64 {
    if 0 <= off && off + 8 <= s.len() {
        (u32_at(s, off) + 4294967296 * u32_at(s, off + 4)) as u64
    } else {
        0
    }
}

/// Four bytes per number.
pub open spec fn words_bytes(ws: Seq<u32>) -> Seq<u8> {
    Seq::new(4 * ws.len(), |i: int| le32(ws[i / 4] as nat)[i % 4])
}

/// The `n` numbers from byte 0 on.
pub open spec fn words_at(s: Seq<u8>, n: nat) -> Seq<u32> {
    Seq::new(n, |i: int| u32_at(s, 4 * i))
}

/// A bit survives being stored.
pub proof fn bit_survives(b: Bit)
    ensures
        bit_from(byte_of(b)) == b,
{
}

/// Stored bits are read back as they were.
pub proof fn bits_survive(s: Seq<u8>, from: int, bits: Seq<Bit>, missing: Bit)
    requires
        0 <= from,
        from + bits.len() <= s.len(),
        forall|i: int| 0 <= i < bits.len() ==> s[from + i] == byte_of(#[trigger] bits[i]),
    ensures
        bits_at(s, from, bits.len(), missing) == bits,
{
    assert(bits_at(s, from, bits.len(), missing) =~= bits);
}

/// A stored four-byte number is read back as it was.
pub proof fn u32_survives(s: Seq<u8>, off: int, v: u32)
    requires
        0 <= off,
        off + 4 <= s.len(),
        forall|i: int| 0 <= i < 4 ==> #[trigger] le32(v as nat)[i] == s[off + i],
    ensures
        u32_at(s, off) == v,
{
    let t = le32(v as nat);
    assert(t[0] == s[off] && t[1] == s[off + 1] && t[2] == s[off + 2] && t[3] == s[off + 3]);
    assert(v == v % 256 + 256 * ((v / 256) % 256) + 65536 * ((v / 65536) % 256) + 16777216 * (
    v / 16777216));
}

/// Stored four-byte numbers are read back as they were.
pub proof fn words_survive(s: Seq<u8>, ws: Seq<u32>)
    requires
        4 * ws.len() <= s.len(),
        s.take(4 * ws.len() as int) == words_bytes(ws),
    ensures
        words_at(s, ws.len()) == ws,
{
    assert forall|i: int| 0 <= i < ws.len() implies words_at(s, ws.len())[i] == ws[i] by {
        assert forall|j: int| 0 <= j < 4 implies #[trigger] le32(ws[i] as nat)[j] == s[4 * i
            + j] by {
            assert(s.take(4 * ws.len() as int)[4 * i + j] == words_bytes(ws)[4 * i + j]);
            assert((4 * i + j) / 4 == i && (4 * i + j) % 4 == j);
        }
        u32_survives(s, 4 * i, ws[i]);
    }
    assert(words_at(s, ws.len()) =~= ws);
}

/// A stored eight-byte number is read back as it was.
pub proof fn u64_survives(s: Seq<u8>, off: int, v: u64)
    requires
        0 <= off,
        off + 8 <= s.len(),
        forall|i: int| 0 <= i < 8 ==> #[trigger] le64(v as nat)[i] == s[off + i],
    ensures
        u64_at(s, off) == v,
{
    let lo = (v as nat % 4294967296) as u32;
    let hi = (v as nat / 4294967296) as u32;
    assert forall|i: int| 0 <= i < 4 implies #[trigger] le32(lo as nat)[i] == s[off + i] by {
        assert(le64(v as nat)[i] == le32(lo as nat)[i]);
    }
    assert forall|i: int| 0 <= i < 4 implies #[trigger] le32(hi as nat)[i] == s[off + 4 + i] by {
        assert(le64(v as nat)[4 + i] == le32(hi as nat)[i]);
    }
    u32_survives(s, off, lo);
    u32_survives(s, off + 4, hi);
}

pub(crate) fn bit_to_byte(b: Bit) -> (r: u8)
    ensures
        r == byte_of(b),
{
    match b {
        Bit::Zero => 0,
        Bit::One => 1,
        Bit::Unknown => 2,
        Bit::Error => 3,
    }
}

pub(crate) fn byte_to_bit(b: u8) -> (r: Bit)
    ensures
        r == bit_from(b),
{
    match b {
        1 => Bit::One,
        2 => Bit::Unknown,
        3 => Bit::Error,
        _ => Bit::Zero,
    }
}

/// Appends one byte per bit.
pub(crate) fn push_bits(out: &mut Vec<u8>, bits: &Signal)
    ensures
        final(out)@ == old(out)@ + bytes_of(bits@),
{
    let ghost start = out@;
    for i in 0..bits.len()
        invariant
            out@ == start + bytes_of(bits@).take(i as int),
    {
        out.push(bit_to_byte(bits[i]));
        assert(out@ =~= start + bytes_of(bits@).take(i + 1));
    }
    assert(bytes_of(bits@).take(bits@.len() as int) =~= bytes_of(bits@));
}

/// The `n` bits from byte `from` on.
pub(crate) fn read_bits(state: &[u8], from: usize, n: usize, missing: Bit) -> (r: Signal)
    ensures
        r@ == bits_at(state@, from as int, n as nat, missing),
{
    let mut out: Signal = Vec::new();
    for i in 0..n
        invariant
            out@ == bits_at(state@, from as int, i as nat, missing),
    {
        let bit: Bit = if from < state.len() && i < state.len() - from {
            byte_to_bit(state[from + i])
        } else {
            missing
        };
        out.push(bit);
        assert(out@ =~= bits_at(state@, from as int, (i + 1) as nat, missing));
    }
    out
}

/// Appends a number in four bytes.
pub(crate) fn push_u32(out: &mut Vec<u8>, v: u32)
    ensures
        final(out)@ == old(out)@ + le32(v as nat),
{
    out.push((v % 256) as u8);
    out.push(((v / 256) % 256) as u8);
    out.push(((v / 65536) % 256) as u8);
    out.push(((v / 16777216) % 256) as u8);
    assert(out@ =~= old(out)@ + le32(v as nat));
}

/// Appends a number in eight bytes.
pub(crate) fn push_u64(out: &mut Vec<u8>, v: u64)
    ensures
        final(out)@ == old(out)@ + le64(v as nat),
{
    push_u32(out, (v % 4294967296) as u32);
    push_u32(out, (v / 4294967296) as u32);
    assert(out@ =~= old(out)@ + le64(v as nat));
}

/// The four-byte number at `off`, or zero where it does not fit.
pub(crate) fn read_u32(state: &[u8], off: usize) -> (r: u32)
    ensures
        r == u32_at(state@, off as int),
{
    if state.len() >= 4 && off <= state.len() - 4 {
        (state[off] as u32) + 256 * (state[off + 1] as u32) + 65536 * (state[off + 2] as u32)
            + 16777216 * (state[off + 3] as u32)
    } else {
        0
    }
}

/// The eight-byte number at the start, or zero where it does not fit.
pub(crate) fn read_first_u64(state: &[u8]) -> (r: u64)
    ensures
        r == u64_at(state@, 0),
{
    if state.len() >= 8 {
        (read_u32(state, 0) as u64) + 4294967296 * (read_u32(state, 4) as u64)
    } else {
        0
    }
}

/// Appends four bytes per number.
pub(crate) fn push_words(out: &mut Vec<u8>, ws: &Vec<u32>)
    ensures
        final(out)@ == old(out)@ + words_bytes(ws@),
{
    let ghost start = out@;
    let ghost all = words_bytes(ws@);
    for i in 0..ws.len()
        invariant
            all == words_bytes(ws@),
            out@ == start + all.take(4 * i as int),
    {
        push_u32(out, ws[i]);
        assert(out@ =~= start + all.take(4 * (i + 1) as int)) by {
            assert forall|j: int| 4 * i <= j < 4 * i + 4 implies all[j] == le32(ws@[i as int] as nat)[j
                - 4 * i] by {
                assert(j / 4 == i && j % 4 == j - 4 * i);
            }
        }
    }
    assert(all.take(4 * ws@.len() as int) =~= all);
}

/// The first `n` four-byte numbers.
pub(crate) fn read_words(state: &[u8], n: usize) -> (r: Vec<u32>)
    ensures
        r@ == words_at(state@, n as nat),
{
    let mut out: Vec<u32> = Vec::new();
    let whole: usize = state.len() / 4;
    for i in 0..n
        invariant
            whole == state@.len() / 4,
            4 * whole <= usize::MAX,
            out@ == words_at(state@, i as nat),
    {
        let w: u32 = if i < whole {
            read_u32(state, 4 * i)
        } else {
            0
        };
        out.push(w);
        assert(out@ =~= words_at(state@, (i + 1) as nat));
    }
    out
}

/// Numbers are saved lowest byte first: each byte counts 256 times the one before it. Bits are
/// saved as 0 for `Zero`, 1 for `One`, 2 for `Unknown` and 3 for `Error`.
pub proof fn numbers_are_saved_lowest_byte_first(v: u32, s: Seq<Bit>, i: int)
    requires
        0 <= i < s.len(),
    ensures
        le32(v as nat).len() == 4,
        le32(v as nat)[0] + 256 * le32(v as nat)[1] + 65536 * le32(v as nat)[2] + 16777216 * le32(
            v as nat,
        )[3] == v,
        bytes_of(s).len() == s.len(),
        bytes_of(s)[i] == (if s[i] == Bit::Zero {
            0u8
        } else if s[i] == Bit::One {
            1u8
        } else if s[i] == Bit::Unknown {
            2u8
        } else {
            3u8
        }),
        bit_from(0) == Bit::Zero,
        bit_from(1) == Bit::One,
        bit_from(2) == Bit::Unknown,
        bit_from(3) == Bit::Error,
{
    u32_survives(le32(v as nat), 0, v);
}

} // verus!
