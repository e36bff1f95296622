//! Signals as bit vectors and as numbers: what a pin reads, and the words it spells.
use vstd::prelude::*;
use vstd::arithmetic::{div_mod, power2};
use crate::plugin_abi::{Bit, Signal};

verus! {

/// Bit `i` of a pin's signal; a bit beyond the signal's end is undriven.
pub open spec fn bit_of(s: Seq<Bit>, i: int) -> Bit {
    if 0 <= i < s.len() {
        s[i]
    } else {
        Bit::Unknown
    }
}

/// `n` times the same bit.
pub open spec fn filled(n: nat, b: Bit) -> Seq<Bit> {
    Seq::new(n, |i: int| b)
}

/// A signal read at width `n`: cut off, or continued undriven.
pub open spec fn fitted(s: Seq<Bit>, n: nat) -> Seq<Bit> {
    Seq::new(n, |i: int| bit_of(s, i))
}

/// The low `n` bits of a signal are all levels.
pub open spec fn defined(s: Seq<Bit>, n: nat) -> bool {
    forall|i: int| 0 <= i < n ==> crate::plugin_abi::is_level(#[trigger] bit_of(s, i))
}

/// The number that the `One`s among the low `n` bits spell, bit 0 the least significant.
pub open spec fn value_of(s: Seq<Bit>, n: nat) -> nat
    decreases n,
{
    if n == 0 {
        0
    } else {
        value_of(s, (n - 1) as nat) + (if bit_of(s, n - 1) == Bit::One {
            power2::pow2((n - 1) as nat)
        } else {
            0
        })
    }
}

/// The number on a signal of width `n`, where all its bits are levels.
pub open spec fn word(s: Seq<Bit>, n: nat) -> Option<nat> {
    if defined(s, n) {
        Some(value_of(s, n))
    } else {
        None
    }
}

/// Whether binary digit `i` of `v` is one; a negative number reads in two's complement.
pub open spec fn digit(v: int, i: nat) -> bool {
    (v / (power2::pow2(i) as int)) % 2 == 1
}

/// The low `n` binary digits of `v` as a signal.
pub open spec fn bits_of(v: int, n: nat) -> Seq<Bit> {
    Seq::new(
        n,
        |i: int|
            if digit(v, i as nat) {
                Bit::One
            } else {
                Bit::Zero
            },
    )
}

/// A signal is read bit by bit from its own position; where it has none, it is undriven.
pub proof fn bits_have_positions(s: Seq<Bit>, n: nat, i: int, b: Bit)
    ensures
        0 <= i < s.len() ==> bit_of(s, i) == s[i],
        !(0 <= i < s.len()) ==> bit_of(s, i) == Bit::Unknown,
        fitted(s, n).len() == n,
        0 <= i < n && i < s.len() ==> fitted(s, n)[i] == s[i],
        s.len() <= i < n ==> fitted(s, n)[i] == Bit::Unknown,
        filled(n, b).len() == n,
        0 <= i < n ==> filled(n, b)[i] == b,
        defined(s, n) <==> n <= s.len() && forall|j: int|
            0 <= j < n ==> (#[trigger] s[j]) == Bit::Zero || s[j] == Bit::One,
{
    if defined(s, n) {
        assert forall|j: int| 0 <= j < n implies j < s.len() && ((#[trigger] s[j]) == Bit::Zero
            || s[j] == Bit::One) by {
            assert(crate::plugin_abi::is_level(bit_of(s, j)));
        }
        if n > s.len() {
            assert(crate::plugin_abi::is_level(bit_of(s, n - 1)));
        }
    }
}

/// The number on a word is the one below two to the width whose binary digits are the bits,
/// from the lowest on.
pub proof fn words_are_binary(s: Seq<Bit>, n: nat, i: nat)
    requires
        i < n <= s.len(),
    ensures
        value_of(s, n) < power2::pow2(n),
        (value_of(s, n) as int / power2::pow2(i) as int) % 2 == 1 <==> s[i as int] == Bit::One,
        word(s, n) is Some <==> forall|j: int|
            0 <= j < n ==> (#[trigger] s[j]) == Bit::Zero || s[j] == Bit::One,
        word(s, n) is Some ==> word(s, n) == Some(value_of(s, n)),
{
    value_bound(s, n);
    digits_of_value(s, n, i);
    bits_have_positions(s, n, 0, Bit::Zero);
}

/// A number is spelled with its binary digits, the lowest first.
pub proof fn numbers_are_spelled_in_binary(v: int, n: nat, i: int)
    requires
        0 <= i < n,
    ensures
        bits_of(v, n).len() == n,
        bits_of(v, n)[i] == Bit::One <==> (v / power2::pow2(i as nat) as int) % 2 == 1,
        bits_of(v, n)[i] == Bit::One || bits_of(v, n)[i] == Bit::Zero,
{
}

/// A word of `n` bits is below two to the `n`.
pub proof fn value_bound(s: Seq<Bit>, n: nat)
    ensures
        value_of(s, n) < power2::pow2(n),
    decreases n,
{
    if n == 0 {
        power2::lemma2_to64();
    } else {
        value_bound(s, (n - 1) as nat);
        power2::lemma_pow2_unfold(n);
    }
}

/// A multiple of a higher power of two does not change a binary digit.
pub proof fn digit_of_sum(lo: int, b: int, i: nat, k: nat)
    requires
        i < k,
    ensures
        digit(lo + b * power2::pow2(k), i) == digit(lo, i),
{
    let d = power2::pow2(i) as int;
    power2::lemma_pow2_pos(i);
    power2::lemma_pow2_adds(i, (k - i) as nat);
    power2::lemma_pow2_unfold((k - i) as nat);
    let h = b * power2::pow2((k - i - 1) as nat);
    assert(b * power2::pow2(k) == (2 * h) * d) by (nonlinear_arith)
        requires
            power2::pow2(k) == power2::pow2(i) * power2::pow2((k - i) as nat),
            power2::pow2((k - i) as nat) == 2 * power2::pow2((k - i - 1) as nat),
            d == power2::pow2(i),
            h == b * power2::pow2((k - i - 1) as nat),
    ;
    div_mod::lemma_hoist_over_denominator(lo, 2 * h, power2::pow2(i));
}

/// Every binary digit of a word is the bit it was read from.
pub proof fn digits_of_value(s: Seq<Bit>, n: nat, i: nat)
    requires
        i < n,
    ensures
        digit(value_of(s, n) as int, i) == (bit_of(s, i as int) == Bit::One),
    decreases n,
{
    let lo = value_of(s, (n - 1) as nat);
    let k = (n - 1) as nat;
    let b: nat = if bit_of(s, n - 1) == Bit::One {
        1
    } else {
        0
    };
    value_bound(s, k);
    power2::lemma_pow2_pos(k);
    assert(value_of(s, n) == lo + b * power2::pow2(k)) by (nonlinear_arith)
        requires
            b == 1 || b == 0,
            b == 1 ==> value_of(s, n) == lo + power2::pow2(k),
            b == 0 ==> value_of(s, n) == lo,
    ;
    if i == k {
        div_mod::lemma_fundamental_div_mod_converse(
            value_of(s, n) as int,
            power2::pow2(k) as int,
            b as int,
            lo as int,
        );
    } else {
        digits_of_value(s, k, i);
        digit_of_sum(lo as int, b as int, i, k);
    }
}

/// Reading a fully defined signal as a number and spelling that number gives the signal back.
pub proof fn word_round_trip(s: Seq<Bit>, n: nat)
    requires
        defined(s, n),
    ensures
        bits_of(value_of(s, n) as int, n) == fitted(s, n),
{
    assert forall|i: int| 0 <= i < n implies bits_of(value_of(s, n) as int, n)[i] == fitted(
        s,
        n,
    )[i] by {
        digits_of_value(s, n, i as nat);
        assert(crate::plugin_abi::is_level(bit_of(s, i)));
    }
    assert(bits_of(value_of(s, n) as int, n) =~= fitted(s, n));
}

/// Spelling a number at width `n` and reading it back gives the number modulo two to the `n`.
pub proof fn bits_round_trip(v: nat, n: nat)
    ensures
        defined(bits_of(v as int, n), n),
        value_of(bits_of(v as int, n), n) == v % power2::pow2(n),
    decreases n,
{
    let s = bits_of(v as int, n);
    assert forall|i: int| 0 <= i < n implies crate::plugin_abi::is_level(#[trigger] bit_of(s, i)) by {
    }
    value_of_bits(v, n, n);
}

proof fn value_of_bits(v: nat, n: nat, m: nat)
    requires
        m <= n,
    ensures
        value_of(bits_of(v as int, n), m) == v % power2::pow2(m),
    decreases m,
{
    if m == 0 {
        power2::lemma2_to64();
    } else {
        let k = (m - 1) as nat;
        value_of_bits(v, n, k);
        power2::lemma_pow2_pos(k);
        power2::lemma_pow2_unfold(m);
        // v % (2^k * 2) == 2^k * ((v / 2^k) % 2) + v % 2^k
        div_mod::lemma_mod_breakdown(v as int, power2::pow2(k) as int, 2);
        let d = (v as int / power2::pow2(k) as int) % 2;
        assert(power2::pow2(k) * d == (if d == 1 {
            power2::pow2(k) as int
        } else {
            0
        })) by (nonlinear_arith)
            requires
                d == 0 || d == 1,
        ;
        assert(power2::pow2(m) == power2::pow2(k) * 2);
    }
}

/// The number on a signal depends on its low bits only.
pub proof fn value_of_fitted(s: Seq<Bit>, n: nat, m: nat)
    requires
        m <= n,
    ensures
        value_of(fitted(s, n), m) == value_of(s, m),
    decreases m,
{
    if m > 0 {
        value_of_fitted(s, n, (m - 1) as nat);
    }
}

/// Reads bit `i` of a pin, `Unknown` where the pin is unconnected or narrower.
pub fn bit_at(signal: &Signal, i: usize) -> (b: Bit)
    ensures
        b == bit_of(signal@, i as int),
{
    if i < signal.len() {
        signal[i]
    } else {
        Bit::Unknown
    }
}

/// A signal of `bits` copies of `b`.
pub fn fill(b: Bit, bits: usize) -> (r: Signal)
    ensures
        r@ == filled(bits as nat, b),
{
    let mut out: Signal = Vec::new();
    for i in 0..bits
        invariant
            out@ == filled(i as nat, b),
    {
        out.push(b);
        assert(out@ =~= filled((i + 1) as nat, b));
    }
    out
}

/// An all-zero signal.
pub fn zeros(bits: u8) -> (r: Signal)
    ensures
        r@ == filled(bits as nat, Bit::Zero),
{
    fill(Bit::Zero, bits as usize)
}

/// A pin's signal at exactly `bits` bits.
pub fn fit(signal: &Signal, bits: u8) -> (r: Signal)
    ensures
        r@ == fitted(signal@, bits as nat),
{
    let mut out: Signal = Vec::new();
    for i in 0..bits as usize
        invariant
            out@ == fitted(signal@, i as nat),
    {
        out.push(bit_at(signal, i));
        assert(out@ =~= fitted(signal@, (i + 1) as nat));
    }
    out
}

/// The number on a pin of width `bits`, or `None` if any of its bits is not a level.
pub fn signal_to_u32_if_defined(signal: &Signal, bits: u8) -> (r: Option<u32>)
    requires
        bits <= 32,
    ensures
        r is Some <==> defined(signal@, bits as nat),
        r matches Some(v) ==> v == value_of(signal@, bits as nat),
{
    let mut value: u32 = 0;
    for i in 0..bits as usize
        invariant
            bits <= 32,
            defined(signal@, i as nat),
            value == value_of(signal@, i as nat),
    {
        proof {
            value_bound(signal@, i as nat);
            vstd::bits::lemma_u32_pow2_no_overflow(i as nat);
            vstd::bits::lemma_u32_shl_is_mul(1u32, i as u32);
            value_bound(signal@, (i + 1) as nat);
            power2::lemma_pow2_unfold((i + 1) as nat);
            power2::lemma2_to64();
            if i < 31 {
                vstd::bits::lemma_u32_pow2_no_overflow((i + 1) as nat);
            }
        }
        match bit_at(signal, i) {
            Bit::One => {
                value = value + (1u32 << (i as u32));
            },
            Bit::Zero => {},
            Bit::Unknown | Bit::Error => {
                assert(!crate::plugin_abi::is_level(bit_of(signal@, i as int)));
                return None;
            },
        }
    }
    Some(value)
}

/// The low `bits` binary digits of `value`.
pub fn u32_to_signal(value: u32, bits: u8) -> (r: Signal)
    requires
        bits <= 32,
    ensures
        r@ == bits_of(value as int, bits as nat),
{
    let mut out: Signal = Vec::new();
    for i in 0..bits as usize
        invariant
            bits <= 32,
            out@ == bits_of(value as int, i as nat),
    {
        let shifted: u32 = value >> (i as u32);
        proof {
            vstd::bits::lemma_u32_shr_is_div(value, i as u32);
            assert(shifted & 1 == shifted % 2) by (bit_vector);
        }
        out.push(
            if shifted & 1 != 0 {
                Bit::One
            } else {
                Bit::Zero
            },
        );
        assert(out@ =~= bits_of(value as int, (i + 1) as nat));
    }
    out
}

/// The low `bits` binary digits of a 64-bit number.
pub(crate) fn u64_to_signal(value: u64, bits: u8) -> (r: Signal)
    requires
        bits <= 64,
    ensures
        r@ == bits_of(value as int, bits as nat),
{
    let mut out: Signal = Vec::new();
    for i in 0..bits as usize
        invariant
            bits <= 64,
            out@ == bits_of(value as int, i as nat),
    {
        let shifted: u64 = value >> (i as u64);
        proof {
            vstd::bits::lemma_u64_shr_is_div(value, i as u64);
            assert(shifted & 1 == shifted % 2) by (bit_vector);
        }
        out.push(
            if shifted & 1 != 0 {
                Bit::One
            } else {
                Bit::Zero
            },
        );
        assert(out@ =~= bits_of(value as int, (i + 1) as nat));
    }
    out
}

/// The low `bits` binary digits of an integer in two's complement.
pub(crate) fn i64_to_signal(value: i64, bits: u8) -> (r: Signal)
    requires
        bits <= 64,
    ensures
        r@ == bits_of(value as int, bits as nat),
{
    if value >= 0 {
        u64_to_signal(value as u64, bits)
    } else {
        let wrapped: u64 = (value as i128 + 0x1_0000_0000_0000_0000i128) as u64;
        let out: Signal = u64_to_signal(wrapped, bits);
        proof {
            power2::lemma2_to64();
            assert forall|i: int| 0 <= i < bits implies out@[i] == bits_of(
                value as int,
                bits as nat,
            )[i] by {
                digit_of_sum(value as int, 1, i as nat, 64);
            }
            assert(out@ =~= bits_of(value as int, bits as nat));
        }
        out
    }
}

} // verus!
