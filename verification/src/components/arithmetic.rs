//! Adder, Subtractor, Comparator, Multiplier and Divider.
//!
//! Addition is bit-serial: a full adder per bit, with the carry passed upwards. An undefined
//! bit poisons every bit from there up and the carry out. For fully defined operands it is
//! binary addition at every width, 32 included: [`adder_adds`] states so.
use vstd::prelude::*;
use vstd::arithmetic::{div_mod, power2};
use super::signal::{bit_at, fill, signal_to_u32_if_defined, u64_to_signal, zeros};
use super::{signal, Gate, GateView};
use crate::plugin_abi;
use crate::plugin_abi::{Bit, Signal};

verus! {

/// An undriven carry reads as no carry.
pub open spec fn grounded(c: Bit) -> Bit {
    if c == Bit::Unknown {
        Bit::Zero
    } else {
        c
    }
}

/// One for `One`, zero for everything else.
pub open spec fn unit(b: Bit) -> nat {
    if b == Bit::One {
        1
    } else {
        0
    }
}

/// The carry out of one bit position: undefined operands poison it, `Error` before `Unknown`.
pub open spec fn carry_out(x: Bit, y: Bit, c: Bit) -> Bit {
    if !plugin_abi::is_level(c) {
        c
    } else if x == Bit::Error || y == Bit::Error {
        Bit::Error
    } else if x == Bit::Unknown || y == Bit::Unknown {
        Bit::Unknown
    } else if unit(x) + unit(y) + unit(c) >= 2 {
        Bit::One
    } else {
        Bit::Zero
    }
}

/// The carry into bit `i` when `a` and `b` are added with carry in `c`.
pub open spec fn carry(a: Seq<Bit>, b: Seq<Bit>, c: Bit, i: nat) -> Bit
    decreases i,
{
    if i == 0 {
        c
    } else {
        carry_out(
            signal::bit_of(a, i - 1),
            signal::bit_of(b, i - 1),
            carry(a, b, c, (i - 1) as nat),
        )
    }
}

/// Bit `i` of the sum: the parity of its operands and the carry in, or the poison.
pub open spec fn sum_bit(a: Seq<Bit>, b: Seq<Bit>, c: Bit, i: nat) -> Bit {
    let next = carry(a, b, c, i + 1);
    if !plugin_abi::is_level(next) {
        next
    } else if (unit(signal::bit_of(a, i as int)) + unit(signal::bit_of(b, i as int)) + unit(
        carry(a, b, c, i),
    )) % 2 == 1 {
        Bit::One
    } else {
        Bit::Zero
    }
}

/// The low `n` bits of the sum of `a`, `b` and the carry `c`.
pub open spec fn sum(a: Seq<Bit>, b: Seq<Bit>, c: Bit, n: nat) -> Seq<Bit> {
    Seq::new(n, |i: int| sum_bit(a, b, c, i as nat))
}

/// Every bit of a signal negated.
pub open spec fn complement(s: Seq<Bit>) -> Seq<Bit> {
    Seq::new(s.len(), |i: int| plugin_abi::negated(s[i]))
}

/// The outcome of comparing the low `k` of `n` bits, from the top down: greater, equal, less.
/// The first pair of bits that is undefined or differs decides. With `signed`, the top bit is
/// the sign: a `One` there is the smaller one.
pub open spec fn ordering_bits(
    a: Seq<Bit>,
    b: Seq<Bit>,
    n: nat,
    signed: bool,
    k: nat,
) -> (Bit, Bit, Bit)
    decreases k,
{
    if k == 0 {
        (Bit::Zero, Bit::One, Bit::Zero)
    } else {
        let x = signal::bit_of(a, k - 1);
        let y = signal::bit_of(b, k - 1);
        if x == Bit::Error || y == Bit::Error {
            (Bit::Error, Bit::Error, Bit::Error)
        } else if x == Bit::Unknown || y == Bit::Unknown {
            (Bit::Unknown, Bit::Unknown, Bit::Unknown)
        } else if x == y {
            ordering_bits(a, b, n, signed, (k - 1) as nat)
        } else if (x == Bit::One) != (signed && k == n) {
            (Bit::One, Bit::Zero, Bit::Zero)
        } else {
            (Bit::Zero, Bit::Zero, Bit::One)
        }
    }
}

/// A word-wide carry input: zero where none of its bits is driven, otherwise itself.
pub open spec fn grounded_word(s: Seq<Bit>, n: nat) -> Seq<Bit> {
    if forall|i: int| 0 <= i < s.len() ==> s[i] == Bit::Unknown {
        signal::filled(n, Bit::Zero)
    } else {
        s
    }
}

/// What both outputs of a word operation read when an operand is not fully defined.
pub open spec fn poisoned(a: Seq<Bit>, b: Seq<Bit>, c: Seq<Bit>, n: nat) -> Seq<Bit> {
    signal::filled(
        n,
        if a.contains(Bit::Error) || b.contains(Bit::Error) || c.contains(Bit::Error) {
            Bit::Error
        } else {
            Bit::Unknown
        },
    )
}

/// The output pins of an arithmetic gate.
pub open spec fn outputs(g: GateView, ins: Seq<Seq<Bit>>) -> Seq<Seq<Bit>> {
    match g {
        GateView::Adder { bits } => {
            let c = grounded(signal::bit_of(ins[2], 0));
            seq![sum(ins[0], ins[1], c, bits as nat), seq![carry(ins[0], ins[1], c, bits as nat)]]
        },
        GateView::Subtractor { bits } => {
            let b = complement(ins[1]);
            let c = plugin_abi::negated(grounded(signal::bit_of(ins[2], 0)));
            seq![
                sum(ins[0], b, c, bits as nat),
                seq![plugin_abi::negated(carry(ins[0], b, c, bits as nat))],
            ]
        },
        GateView::Comparator { bits, signed } => {
            let (gt, eq, lt) = ordering_bits(ins[0], ins[1], bits as nat, signed, bits as nat);
            seq![seq![gt], seq![eq], seq![lt]]
        },
        GateView::Multiplier { bits } => {
            let n = bits as nat;
            let c = grounded_word(ins[2], n);
            match (signal::word(ins[0], n), signal::word(ins[1], n), signal::word(c, n)) {
                (Some(x), Some(y), Some(z)) => {
                    let product = x * y + z;
                    seq![
                        signal::bits_of(product as int, n),
                        signal::bits_of((product / power2::pow2(n)) as int, n),
                    ]
                },
                _ => seq![poisoned(ins[0], ins[1], c, n), poisoned(ins[0], ins[1], c, n)],
            }
        },
        GateView::Divider { bits } => {
            let n = bits as nat;
            let u = grounded_word(ins[2], n);
            match (signal::word(ins[0], n), signal::word(ins[1], n), signal::word(u, n)) {
                (Some(x), Some(y), Some(z)) => {
                    let num = z * power2::pow2(n) + x;
                    let den: nat = if y == 0 {
                        1
                    } else {
                        y
                    };
                    seq![
                        signal::bits_of((num / den) as int, n),
                        signal::bits_of((num % den) as int, n),
                    ]
                },
                _ => seq![poisoned(ins[0], ins[1], u, n), poisoned(ins[0], ins[1], u, n)],
            }
        },
        _ => Seq::empty(),
    }
}

pub open spec fn input_count(g: GateView) -> nat {
    if g is Comparator {
        2
    } else {
        3
    }
}

pub open spec fn input_width(g: GateView, pin: int) -> u8 {
    match g {
        GateView::Adder { bits } | GateView::Subtractor { bits } => if pin < 2 {
            bits
        } else {
            1
        },
        GateView::Comparator { bits, .. } => bits,
        GateView::Multiplier { bits } | GateView::Divider { bits } => bits,
        _ => 0,
    }
}

pub open spec fn output_width(g: GateView, pin: int) -> u8 {
    match g {
        GateView::Adder { bits } | GateView::Subtractor { bits } => if pin == 0 {
            bits
        } else {
            1
        },
        GateView::Comparator { .. } => 1,
        GateView::Multiplier { bits } | GateView::Divider { bits } => bits,
        _ => 0,
    }
}

fn is_one(b: Bit) -> (r: u8)
    ensures
        r == unit(b),
{
    if b == Bit::One {
        1
    } else {
        0
    }
}

/// Adds two signals bit by bit, with the carry passed upwards. A floating carry in counts as
/// `Zero`; one that is `Error` poisons everything.
fn ripple_carry_add(a: &Signal, b: &Signal, c_in: Bit, bits: u8) -> (r: (Signal, Bit))
    ensures
        r.0@ == sum(a@, b@, grounded(c_in), bits as nat),
        r.1 == carry(a@, b@, grounded(c_in), bits as nat),
{
    let ghost c = grounded(c_in);
    let mut carry: Bit = if c_in == Bit::Unknown {
        Bit::Zero
    } else {
        c_in
    };
    let mut out: Signal = Vec::with_capacity(bits as usize);
    for i in 0..bits as usize
        invariant
            carry == self::carry(a@, b@, c, i as nat),
            out@ == sum(a@, b@, c, i as nat),
    {
        let bit: Bit = if carry == Bit::Error {
            Bit::Error
        } else if carry == Bit::Unknown {
            Bit::Unknown
        } else {
            let ab: Bit = bit_at(a, i);
            let bb: Bit = bit_at(b, i);
            if ab == Bit::Error || bb == Bit::Error {
                carry = Bit::Error;
                Bit::Error
            } else if ab == Bit::Unknown || bb == Bit::Unknown {
                carry = Bit::Unknown;
                Bit::Unknown
            } else {
                let total: u8 = is_one(ab) + is_one(bb) + is_one(carry);
                carry = if total >= 2 {
                    Bit::One
                } else {
                    Bit::Zero
                };
                if total % 2 == 1 {
                    Bit::One
                } else {
                    Bit::Zero
                }
            }
        };
        out.push(bit);
        assert(out@ =~= sum(a@, b@, c, (i + 1) as nat));
    }
    (out, carry)
}

/// Negates every bit of a signal.
fn complement_of(signal: &Signal) -> (r: Signal)
    ensures
        r@ == complement(signal@),
{
    let mut out: Signal = Vec::with_capacity(signal.len());
    for i in 0..signal.len()
        invariant
            out@ == complement(signal@).take(i as int),
    {
        out.push(signal[i].not());
        assert(out@ =~= complement(signal@).take(i + 1));
    }
    assert(complement(signal@).take(signal@.len() as int) =~= complement(signal@));
    out
}

/// A word-wide carry input whose bits are all floating counts as zero.
fn coerce_if_wholly_unknown(signal: &Signal, bits: u8) -> (r: Signal)
    ensures
        r@ == grounded_word(signal@, bits as nat),
{
    for i in 0..signal.len()
        invariant
            forall|j: int| 0 <= j < i ==> signal@[j] == Bit::Unknown,
    {
        if signal[i] != Bit::Unknown {
            return signal.clone();
        }
    }
    zeros(bits)
}

fn has_error(signal: &Signal) -> (r: bool)
    ensures
        r == signal@.contains(Bit::Error),
{
    for i in 0..signal.len()
        invariant
            forall|j: int| 0 <= j < i ==> signal@[j] != Bit::Error,
    {
        if signal[i] == Bit::Error {
            return true;
        }
    }
    false
}

/// Compares two words from the top bit down: greater, equal, less.
fn compare_bits(a: &Signal, b: &Signal, bits: u8, signed: bool) -> (r: (Bit, Bit, Bit))
    ensures
        r == ordering_bits(a@, b@, bits as nat, signed, bits as nat),
{
    let mut k: usize = bits as usize;
    while k > 0
        invariant
            k <= bits,
            ordering_bits(a@, b@, bits as nat, signed, bits as nat) == ordering_bits(
                a@,
                b@,
                bits as nat,
                signed,
                k as nat,
            ),
        decreases k,
    {
        let i: usize = k - 1;
        let ab: Bit = bit_at(a, i);
        let bb: Bit = bit_at(b, i);
        if ab == Bit::Error || bb == Bit::Error {
            return (Bit::Error, Bit::Error, Bit::Error);
        } else if ab == Bit::Unknown || bb == Bit::Unknown {
            return (Bit::Unknown, Bit::Unknown, Bit::Unknown);
        } else if ab != bb {
            if (ab == Bit::One) != (signed && k == bits as usize) {
                return (Bit::One, Bit::Zero, Bit::Zero);
            } else {
                return (Bit::Zero, Bit::Zero, Bit::One);
            }
        }
        k = i;
    }
    (Bit::Zero, Bit::One, Bit::Zero)
}

proof fn word_product_fits(x: nat, y: nat, z: nat, n: nat)
    requires
        n <= 32,
        x < power2::pow2(n),
        y < power2::pow2(n),
        z < power2::pow2(n),
    ensures
        x * y + z <= u64::MAX,
        z * power2::pow2(n) + x <= u64::MAX,
        power2::pow2(n) <= 0x1_0000_0000,
{
    power2::lemma2_to64();
    if n < 32 {
        power2::lemma_pow2_strictly_increases(n, 32);
    }
    let p = power2::pow2(n);
    assert(x * y + z <= u64::MAX && z * p + x <= u64::MAX) by (nonlinear_arith)
        requires
            x < p,
            y < p,
            z < p,
            p <= 0x1_0000_0000,
    ;
}

/// `a * b + c` as a low word and a high word.
fn multiply(a: &Signal, b: &Signal, c: &Signal, bits: u8) -> (r: Vec<Signal>)
    requires
        bits <= 32,
    ensures
        plugin_abi::signals(r@) == outputs(
            GateView::Multiplier { bits },
            seq![a@, b@, c@],
        ),
{
    let c_in: Signal = coerce_if_wholly_unknown(c, bits);
    let av: Option<u32> = signal_to_u32_if_defined(a, bits);
    let bv: Option<u32> = signal_to_u32_if_defined(b, bits);
    let cv: Option<u32> = signal_to_u32_if_defined(&c_in, bits);
    let ghost n = bits as nat;
    let (low, high): (Signal, Signal) = match (av, bv, cv) {
        (Some(x), Some(y), Some(z)) => {
            proof {
                signal::value_bound(a@, n);
                signal::value_bound(b@, n);
                signal::value_bound(c_in@, n);
                word_product_fits(x as nat, y as nat, z as nat, n);
                assert(x as u64 * y as u64 <= u64::MAX) by (nonlinear_arith)
                    requires
                        x <= u32::MAX,
                        y <= u32::MAX,
                ;
            }
            let product: u64 = (x as u64) * (y as u64) + (z as u64);
            proof {
                vstd::bits::lemma_u64_shr_is_div(product, bits as u64);
            }
            (u64_to_signal(product, bits), u64_to_signal(product >> (bits as u64), bits))
        },
        _ => {
            let out: Bit = if has_error(a) || has_error(b) || has_error(&c_in) {
                Bit::Error
            } else {
                Bit::Unknown
            };
            (fill(out, bits as usize), fill(out, bits as usize))
        },
    };
    let r: Vec<Signal> = vec![low, high];
    assert(plugin_abi::signals(r@) =~= seq![low@, high@]);
    r
}

/// `upper:a` divided by `b`: quotient and remainder. A zero divisor counts as one.
fn divide(a: &Signal, b: &Signal, upper: &Signal, bits: u8) -> (r: Vec<Signal>)
    requires
        bits <= 32,
    ensures
        plugin_abi::signals(r@) == outputs(
            GateView::Divider { bits },
            seq![a@, b@, upper@],
        ),
{
    let u: Signal = coerce_if_wholly_unknown(upper, bits);
    let av: Option<u32> = signal_to_u32_if_defined(a, bits);
    let bv: Option<u32> = signal_to_u32_if_defined(b, bits);
    let uv: Option<u32> = signal_to_u32_if_defined(&u, bits);
    let ghost n = bits as nat;
    let (quotient, remainder): (Signal, Signal) = match (av, bv, uv) {
        (Some(x), Some(y), Some(z)) => {
            proof {
                signal::value_bound(a@, n);
                signal::value_bound(b@, n);
                signal::value_bound(u@, n);
                word_product_fits(x as nat, y as nat, z as nat, n);
                vstd::bits::lemma_u64_shl_is_mul(z as u64, bits as u64);
            }
            let num: u64 = ((z as u64) << (bits as u64)) + (x as u64);
            let den: u64 = if y == 0 {
                1
            } else {
                y as u64
            };
            (u64_to_signal(num / den, bits), u64_to_signal(num % den, bits))
        },
        _ => {
            let out: Bit = if has_error(a) || has_error(b) || has_error(&u) {
                Bit::Error
            } else {
                Bit::Unknown
            };
            (fill(out, bits as usize), fill(out, bits as usize))
        },
    };
    let r: Vec<Signal> = vec![quotient, remainder];
    assert(plugin_abi::signals(r@) =~= seq![quotient@, remainder@]);
    r
}

impl Gate {
    pub(crate) fn input_count_arithmetic(&self) -> (r: usize)
        requires
            self@.category() is Arithmetic,
        ensures
            r == input_count(self@),
    {
        match self {
            Gate::Comparator { .. } => 2,
            _ => 3,
        }
    }

    pub(crate) fn input_width_arithmetic(&self, pin: usize) -> (r: u8)
        ensures
            r == input_width(self@, pin as int),
    {
        match self {
            Gate::Adder { bits } | Gate::Subtractor { bits } => if pin < 2 {
                *bits
            } else {
                1
            },
            Gate::Comparator { bits, .. } => *bits,
            Gate::Multiplier { bits } | Gate::Divider { bits } => *bits,
            _ => 0,
        }
    }

    pub(crate) fn output_width_arithmetic(&self, pin: usize) -> (r: u8)
        ensures
            r == output_width(self@, pin as int),
    {
        match self {
            Gate::Adder { bits } | Gate::Subtractor { bits } => if pin == 0 {
                *bits
            } else {
                1
            },
            Gate::Comparator { .. } => 1,
            Gate::Multiplier { bits } | Gate::Divider { bits } => *bits,
            _ => 0,
        }
    }

    pub(crate) fn eval_arithmetic(&self, inputs: &[Signal]) -> (out: Vec<Signal>)
        requires
            self@.category() is Arithmetic,
            accepts(self@, plugin_abi::signals(inputs@)),
            valid(self@),
        ensures
            plugin_abi::signals(out@) == outputs(self@, plugin_abi::signals(inputs@)),
    {
        let ghost ins = plugin_abi::signals(inputs@);
        match self {
            Gate::Adder { bits } => {
                let (total, c_out): (Signal, Bit) = ripple_carry_add(
                    &inputs[0],
                    &inputs[1],
                    bit_at(&inputs[2], 0),
                    *bits,
                );
                let out: Vec<Signal> = vec![total, vec![c_out]];
                assert(plugin_abi::signals(out@) =~~= outputs(self@, ins));
                out
            },
            Gate::Subtractor { bits } => {
                // The floating borrow is grounded before it is negated: negating `Unknown`
                // gives `Error`.
                let b_in: Bit = bit_at(&inputs[2], 0);
                let b_in: Bit = if b_in == Bit::Unknown {
                    Bit::Zero
                } else {
                    b_in
                };
                let flipped: Signal = complement_of(&inputs[1]);
                let (diff, c_out): (Signal, Bit) = ripple_carry_add(
                    &inputs[0],
                    &flipped,
                    b_in.not(),
                    *bits,
                );
                let out: Vec<Signal> = vec![diff, vec![c_out.not()]];
                assert(plugin_abi::signals(out@) =~~= outputs(self@, ins));
                out
            },
            Gate::Comparator { bits, signed } => {
                if *bits == 0 {
                    let out: Vec<Signal> = vec![vec![Bit::Zero], vec![Bit::One], vec![Bit::Zero]];
                    assert(plugin_abi::signals(out@) =~~= outputs(self@, ins));
                    return out;
                }
                let (gt, eq, lt): (Bit, Bit, Bit) = compare_bits(
                    &inputs[0],
                    &inputs[1],
                    *bits,
                    *signed,
                );
                let out: Vec<Signal> = vec![vec![gt], vec![eq], vec![lt]];
                assert(plugin_abi::signals(out@) =~~= outputs(self@, ins));
                out
            },
            Gate::Multiplier { bits } => multiply(&inputs[0], &inputs[1], &inputs[2], *bits),
            Gate::Divider { bits } => divide(&inputs[0], &inputs[1], &inputs[2], *bits),
            _ => Vec::new(),
        }
    }
}

/// The widths at which an arithmetic gate can be evaluated.
pub open spec fn valid(g: GateView) -> bool {
    match g {
        GateView::Multiplier { bits } | GateView::Divider { bits } => bits <= 32,
        _ => true,
    }
}

/// The input lists that an arithmetic gate can be evaluated on.
pub open spec fn accepts(g: GateView, ins: Seq<Seq<Bit>>) -> bool {
    match g {
        GateView::Comparator { bits, .. } => bits > 0 ==> ins.len() >= 2,
        _ => ins.len() >= 3,
    }
}

proof fn sum_value(a: Seq<Bit>, b: Seq<Bit>, c: Bit, n: nat, k: nat)
    requires
        k <= n,
        signal::defined(a, n),
        signal::defined(b, n),
        plugin_abi::is_level(c),
    ensures
        plugin_abi::is_level(carry(a, b, c, k)),
        signal::defined(sum(a, b, c, n), k),
        signal::value_of(sum(a, b, c, n), k) + unit(carry(a, b, c, k)) * power2::pow2(k)
            == signal::value_of(a, k) + signal::value_of(b, k) + unit(c),
    decreases k,
{
    let s = sum(a, b, c, n);
    if k == 0 {
        power2::lemma2_to64();
    } else {
        let j = (k - 1) as nat;
        sum_value(a, b, c, n, j);
        power2::lemma_pow2_unfold(k);
        let x = signal::bit_of(a, j as int);
        let y = signal::bit_of(b, j as int);
        let p = carry(a, b, c, j);
        let q = carry(a, b, c, k);
        let d = signal::bit_of(s, j as int);
        assert(plugin_abi::is_level(x) && plugin_abi::is_level(y));
        assert(d == sum_bit(a, b, c, j));
        assert forall|i: int| 0 <= i < k implies plugin_abi::is_level(
            #[trigger] signal::bit_of(s, i),
        ) by {
            if i < j {
                assert(plugin_abi::is_level(signal::bit_of(s, i)));
            }
        }
        assert(unit(d) + 2 * unit(q) == unit(x) + unit(y) + unit(p));
        let w = power2::pow2(j);
        assert(unit(d) * w + unit(q) * (2 * w) == unit(x) * w + unit(y) * w + unit(p) * w)
            by (nonlinear_arith)
            requires
                unit(d) + 2 * unit(q) == unit(x) + unit(y) + unit(p),
        ;
        unit_times(d, w);
        unit_times(x, w);
        unit_times(y, w);
    }
}

proof fn unit_times(b: Bit, w: nat)
    ensures
        unit(b) * w == (if b == Bit::One {
            w
        } else {
            0
        }),
{
    assert(1 * w == w && 0 * w == 0) by (nonlinear_arith);
}

/// The adder adds: on fully defined operands, sum and carry out together spell
/// `in0 + in1 + c_in`, a floating carry in counting as zero. So it is at every width.
pub proof fn adder_adds(bits: u8, a: Seq<Bit>, b: Seq<Bit>, c: Seq<Bit>)
    requires
        signal::defined(a, bits as nat),
        signal::defined(b, bits as nat),
        signal::bit_of(c, 0) != Bit::Error,
    ensures
        ({
            let n = bits as nat;
            let out = outputs(GateView::Adder { bits }, seq![a, b, c]);
            &&& out.len() == 2 && out[0].len() == n && out[1].len() == 1
            &&& signal::defined(out[0], n) && plugin_abi::is_level(out[1][0])
            &&& signal::value_of(out[0], n) + unit(out[1][0]) * power2::pow2(n)
                == signal::value_of(a, n) + signal::value_of(b, n) + unit(signal::bit_of(c, 0))
        }),
{
    sum_value(a, b, grounded(signal::bit_of(c, 0)), bits as nat, bits as nat);
}

proof fn carry_stays_poisoned(a: Seq<Bit>, b: Seq<Bit>, c: Bit, i: nat, k: nat)
    requires
        i < k,
        !plugin_abi::is_level(signal::bit_of(a, i as int)) || !plugin_abi::is_level(
            signal::bit_of(b, i as int),
        ),
    ensures
        !plugin_abi::is_level(carry(a, b, c, k)),
    decreases k,
{
    if i + 1 < k {
        carry_stays_poisoned(a, b, c, i, (k - 1) as nat);
    }
}

/// An undefined operand bit poisons the sum from there up and the carry out: none of them is a
/// level.
pub proof fn adder_poisons_upwards(bits: u8, a: Seq<Bit>, b: Seq<Bit>, c: Seq<Bit>, i: nat)
    requires
        i < bits,
        !plugin_abi::is_level(signal::bit_of(a, i as int)) || !plugin_abi::is_level(
            signal::bit_of(b, i as int),
        ),
    ensures
        ({
            let out = outputs(GateView::Adder { bits }, seq![a, b, c]);
            &&& forall|j: int| i <= j < bits ==> !plugin_abi::is_level(#[trigger] out[0][j])
            &&& !plugin_abi::is_level(out[1][0])
        }),
{
    let d = grounded(signal::bit_of(c, 0));
    let out = outputs(GateView::Adder { bits }, seq![a, b, c]);
    assert forall|j: int| i <= j < bits implies !plugin_abi::is_level(#[trigger] out[0][j]) by {
        carry_stays_poisoned(a, b, d, i, (j + 1) as nat);
    }
    carry_stays_poisoned(a, b, d, i, bits as nat);
}

/// The low bits of a sum follow from the low bits of the operands: nothing above them,
/// undefined or not, has a say.
pub proof fn sums_depend_on_lower_bits(
    bits: u8,
    a: Seq<Bit>,
    b: Seq<Bit>,
    a2: Seq<Bit>,
    b2: Seq<Bit>,
    c: Seq<Bit>,
    n: nat,
)
    requires
        n <= bits,
        agree(a, a2, n),
        agree(b, b2, n),
    ensures
        outputs(GateView::Adder { bits }, seq![a, b, c])[0].take(n as int) == outputs(
            GateView::Adder { bits },
            seq![a2, b2, c],
        )[0].take(n as int),
{
    let d = grounded(signal::bit_of(c, 0));
    let x = outputs(GateView::Adder { bits }, seq![a, b, c])[0];
    let y = outputs(GateView::Adder { bits }, seq![a2, b2, c])[0];
    assert forall|j: int| 0 <= j < n implies x[j] == y[j] by {
        carry_is_local(a, b, a2, b2, d, n, j as nat);
        carry_is_local(a, b, a2, b2, d, n, (j + 1) as nat);
        assert(signal::bit_of(a, j) == signal::bit_of(a2, j));
        assert(signal::bit_of(b, j) == signal::bit_of(b2, j));
    }
    assert(x.take(n as int) =~= y.take(n as int));
}

/// The low `n` bits of two signals agree.
pub open spec fn agree(a: Seq<Bit>, b: Seq<Bit>, n: nat) -> bool {
    forall|i: int| 0 <= i < n ==> #[trigger] signal::bit_of(a, i) == signal::bit_of(b, i)
}

proof fn carry_is_local(
    a: Seq<Bit>,
    b: Seq<Bit>,
    a2: Seq<Bit>,
    b2: Seq<Bit>,
    c: Bit,
    n: nat,
    k: nat,
)
    requires
        k <= n,
        agree(a, a2, n),
        agree(b, b2, n),
    ensures
        carry(a, b, c, k) == carry(a2, b2, c, k),
    decreases k,
{
    if k > 0 {
        carry_is_local(a, b, a2, b2, c, n, (k - 1) as nat);
        assert(signal::bit_of(a, k - 1) == signal::bit_of(a2, k - 1));
        assert(signal::bit_of(b, k - 1) == signal::bit_of(b2, k - 1));
    }
}

proof fn complement_value(s: Seq<Bit>, n: nat)
    requires
        signal::defined(s, n),
    ensures
        signal::defined(complement(s), n),
        signal::value_of(complement(s), n) + signal::value_of(s, n) == power2::pow2(n) - 1,
    decreases n,
{
    let t = complement(s);
    assert forall|i: int| 0 <= i < n implies plugin_abi::is_level(#[trigger] signal::bit_of(t, i))
        && signal::bit_of(t, i) == plugin_abi::negated(signal::bit_of(s, i)) by {
        assert(plugin_abi::is_level(signal::bit_of(s, i)));
    }
    if n == 0 {
        power2::lemma2_to64();
    } else {
        assert(signal::defined(s, (n - 1) as nat)) by {
            assert forall|i: int| 0 <= i < n - 1 implies plugin_abi::is_level(
                #[trigger] signal::bit_of(s, i),
            ) by {}
        }
        complement_value(s, (n - 1) as nat);
        power2::lemma_pow2_unfold(n);
        assert(plugin_abi::is_level(signal::bit_of(s, n - 1)));
    }
}

/// The subtractor subtracts: on fully defined operands the difference is
/// `in0 - in1 - b_in` modulo two to the width, and the borrow out says that it wrapped. A
/// floating borrow in counts as zero.
pub proof fn subtractor_subtracts(bits: u8, a: Seq<Bit>, b: Seq<Bit>, c: Seq<Bit>)
    requires
        signal::defined(a, bits as nat),
        signal::defined(b, bits as nat),
        signal::bit_of(c, 0) != Bit::Error,
    ensures
        ({
            let n = bits as nat;
            let out = outputs(GateView::Subtractor { bits }, seq![a, b, c]);
            &&& out.len() == 2 && out[0].len() == n && out[1].len() == 1
            &&& signal::defined(out[0], n) && plugin_abi::is_level(out[1][0])
            &&& signal::value_of(out[0], n) - unit(out[1][0]) * power2::pow2(n)
                == signal::value_of(a, n) - signal::value_of(b, n) - unit(signal::bit_of(c, 0))
            &&& out[1][0] == Bit::One <==> signal::value_of(a, n) < signal::value_of(b, n) + unit(
                signal::bit_of(c, 0),
            )
        }),
{
    let n = bits as nat;
    let d = grounded(signal::bit_of(c, 0));
    complement_value(b, n);
    sum_value(a, complement(b), plugin_abi::negated(d), n, n);
    let out = outputs(GateView::Subtractor { bits }, seq![a, b, c]);
    let q = carry(a, complement(b), plugin_abi::negated(d), n);
    unit_times(q, power2::pow2(n));
    unit_times(out[1][0], power2::pow2(n));
    signal::value_bound(out[0], n);
}

/// A word read in two's complement: the top bit counts negative.
pub open spec fn signed_value_of(s: Seq<Bit>, n: nat) -> int {
    if n > 0 && signal::bit_of(s, n - 1) == Bit::One {
        signal::value_of(s, n) - power2::pow2(n)
    } else {
        signal::value_of(s, n) as int
    }
}

proof fn ordering_value(a: Seq<Bit>, b: Seq<Bit>, n: nat, signed: bool, k: nat)
    requires
        k <= n,
        signal::defined(a, n),
        signal::defined(b, n),
        !signed || k < n,
    ensures
        ordering_bits(a, b, n, signed, k) == verdict(
            signal::value_of(a, k) as int,
            signal::value_of(b, k) as int,
        ),
    decreases k,
{
    if k > 0 {
        let j = (k - 1) as nat;
        ordering_value(a, b, n, signed, j);
        signal::value_bound(a, j);
        signal::value_bound(b, j);
        assert(plugin_abi::is_level(signal::bit_of(a, j as int)));
        assert(plugin_abi::is_level(signal::bit_of(b, j as int)));
    }
}

/// Greater, equal, less, as one `One` among three bits.
pub open spec fn verdict(x: int, y: int) -> (Bit, Bit, Bit) {
    if x > y {
        (Bit::One, Bit::Zero, Bit::Zero)
    } else if x == y {
        (Bit::Zero, Bit::One, Bit::Zero)
    } else {
        (Bit::Zero, Bit::Zero, Bit::One)
    }
}

/// The comparator compares: on fully defined operands exactly one of its outputs is `One`, and
/// it is the one that holds of the two numbers, read unsigned or in two's complement.
pub proof fn comparator_compares(bits: u8, signed: bool, a: Seq<Bit>, b: Seq<Bit>)
    requires
        signal::defined(a, bits as nat),
        signal::defined(b, bits as nat),
    ensures
        ({
            let n = bits as nat;
            let (gt, eq, lt) = if signed {
                verdict(signed_value_of(a, n), signed_value_of(b, n))
            } else {
                verdict(signal::value_of(a, n) as int, signal::value_of(b, n) as int)
            };
            outputs(GateView::Comparator { bits, signed }, seq![a, b])
                == seq![seq![gt], seq![eq], seq![lt]]
        }),
{
    let n = bits as nat;
    if !signed || n == 0 {
        ordering_value(a, b, n, false, n);
        if n == 0 {
            assert(signal::value_of(a, 0) == 0 && signal::value_of(b, 0) == 0);
        }
    } else {
        let j = (n - 1) as nat;
        ordering_value(a, b, n, true, j);
        signal::value_bound(a, j);
        signal::value_bound(b, j);
        power2::lemma_pow2_unfold(n);
        assert(plugin_abi::is_level(signal::bit_of(a, j as int)));
        assert(plugin_abi::is_level(signal::bit_of(b, j as int)));
    }
}

/// The multiplier multiplies: on fully defined operands the low word and the high word
/// together spell `in0 * in1 + c_in` exactly, at every width.
pub proof fn multiplier_multiplies(bits: u8, a: Seq<Bit>, b: Seq<Bit>, c: Seq<Bit>)
    requires
        signal::defined(a, bits as nat),
        signal::defined(b, bits as nat),
        signal::defined(grounded_word(c, bits as nat), bits as nat),
    ensures
        ({
            let n = bits as nat;
            let out = outputs(GateView::Multiplier { bits }, seq![a, b, c]);
            &&& out.len() == 2
            &&& signal::defined(out[0], n) && signal::defined(out[1], n)
            &&& signal::value_of(out[0], n) + signal::value_of(out[1], n) * power2::pow2(n)
                == signal::value_of(a, n) * signal::value_of(b, n) + signal::value_of(
                grounded_word(c, n),
                n,
            )
        }),
{
    let n = bits as nat;
    let x = signal::value_of(a, n);
    let y = signal::value_of(b, n);
    let z = signal::value_of(grounded_word(c, n), n);
    let w = power2::pow2(n);
    let product = x * y + z;
    signal::value_bound(a, n);
    signal::value_bound(b, n);
    signal::value_bound(grounded_word(c, n), n);
    assert(0 <= product < w * w) by (nonlinear_arith)
        requires
            x < w,
            y < w,
            z < w,
            product == x * y + z,
    ;
    signal::bits_round_trip(product, n);
    signal::bits_round_trip(product / w, n);
    div_mod::lemma_fundamental_div_mod(product as int, w as int);
    assert(product / w < w) by {
        div_mod::lemma_multiply_divide_lt(product as int, w as int, w as int);
    }
    div_mod::lemma_small_mod(product / w, w);
    vstd::arithmetic::mul::lemma_mul_is_commutative((product / w) as int, w as int);
}

/// The divider divides: with `upper` below the divisor, the quotient fits its word, and
/// quotient and remainder are those of the two-word dividend `upper:in0`.
pub proof fn divider_divides(bits: u8, a: Seq<Bit>, b: Seq<Bit>, u: Seq<Bit>)
    requires
        signal::defined(a, bits as nat),
        signal::defined(b, bits as nat),
        signal::defined(grounded_word(u, bits as nat), bits as nat),
        signal::value_of(grounded_word(u, bits as nat), bits as nat) < signal::value_of(
            b,
            bits as nat,
        ),
    ensures
        ({
            let n = bits as nat;
            let out = outputs(GateView::Divider { bits }, seq![a, b, u]);
            let q = signal::value_of(out[0], n);
            let r = signal::value_of(out[1], n);
            &&& out.len() == 2
            &&& signal::defined(out[0], n) && signal::defined(out[1], n)
            &&& q * signal::value_of(b, n) + r == signal::value_of(grounded_word(u, n), n)
                * power2::pow2(n) + signal::value_of(a, n)
            &&& r < signal::value_of(b, n)
        }),
{
    let n = bits as nat;
    let x = signal::value_of(a, n);
    let y = signal::value_of(b, n);
    let z = signal::value_of(grounded_word(u, n), n);
    let w = power2::pow2(n);
    let num = z * w + x;
    signal::value_bound(a, n);
    signal::value_bound(b, n);
    signal::bits_round_trip(num / y, n);
    signal::bits_round_trip(num % y, n);
    div_mod::lemma_fundamental_div_mod(num as int, y as int);
    assert(num < y * w) by (nonlinear_arith)
        requires
            z < y,
            x < w,
            num == z * w + x,
    ;
    assert(num / y < w) by {
        div_mod::lemma_multiply_divide_lt(num as int, y as int, w as int);
    }
    div_mod::lemma_small_mod(num / y, w);
    div_mod::lemma_small_mod(num % y, w);
    vstd::arithmetic::mul::lemma_mul_is_commutative((num / y) as int, y as int);
}

/// The first undefined position decides what is carried from there on.
proof fn poison_is_carried(a: Seq<Bit>, b: Seq<Bit>, c: Bit, i: nat, k: nat)
    requires
        i < k,
        signal::defined(a, i),
        signal::defined(b, i),
        plugin_abi::is_level(c),
        !plugin_abi::is_level(signal::bit_of(a, i as int)) || !plugin_abi::is_level(
            signal::bit_of(b, i as int),
        ),
    ensures
        carry(a, b, c, k) == (if signal::bit_of(a, i as int) == Bit::Error || signal::bit_of(
            b,
            i as int,
        ) == Bit::Error {
            Bit::Error
        } else {
            Bit::Unknown
        }),
    decreases k,
{
    if k == i + 1 {
        sum_value(a, b, c, i, i);
    } else {
        poison_is_carried(a, b, c, i, (k - 1) as nat);
    }
}

proof fn error_is_carried(a: Seq<Bit>, b: Seq<Bit>, k: nat)
    ensures
        carry(a, b, Bit::Error, k) == Bit::Error,
    decreases k,
{
    if k > 0 {
        error_is_carried(a, b, (k - 1) as nat);
    }
}

/// The lowest undefined position decides how a sum or a difference fails: below it the bits are
/// those of the numbers there; from it on they read `Error` where an operand bit there does, in
/// a difference also where the subtrahend has an undriven bit there, and `Unknown` otherwise.
/// The carry out reads the same, and the borrow `Error`.
pub proof fn sums_fail_from_the_lowest_undefined_bit(bits: u8, ins: Seq<Seq<Bit>>, i: nat)
    requires
        ins.len() == 3,
        i < bits,
        signal::defined(ins[0], i),
        signal::defined(ins[1], i),
        !signal::defined(ins[0], i + 1) || !signal::defined(ins[1], i + 1),
    ensures
        ({
            let n = bits as nat;
            let added = (GateView::Adder { bits }).eval(ins).1;
            let subtracted = (GateView::Subtractor { bits }).eval(ins).1;
            let x = signal::bit_of(ins[0], i as int);
            let y = signal::bit_of(ins[1], i as int);
            let c = signal::bit_of(ins[2], 0);
            let poison = if x == Bit::Error || y == Bit::Error {
                Bit::Error
            } else {
                Bit::Unknown
            };
            let lack = if x == Bit::Error || y == Bit::Error || (y == Bit::Unknown && i
                < ins[1].len()) {
                Bit::Error
            } else {
                Bit::Unknown
            };
            &&& c != Bit::Error ==> {
                &&& forall|j: int| i <= j < n ==> #[trigger] added[0][j] == poison
                &&& added[1] == seq![poison]
                &&& forall|j: int| i <= j < n ==> #[trigger] subtracted[0][j] == lack
                &&& subtracted[1] == seq![Bit::Error]
                &&& signal::defined(added[0], i)
                &&& signal::value_of(added[0], i) as int == (signal::value_of(ins[0], i)
                    + signal::value_of(ins[1], i) + (if c == Bit::One {
                    1int
                } else {
                    0int
                })) % (power2::pow2(i) as int)
            }
        }),
{
    let n = bits as nat;
    let a = ins[0];
    let b = ins[1];
    let x = signal::bit_of(a, i as int);
    let y = signal::bit_of(b, i as int);
    let c = signal::bit_of(ins[2], 0);
    let d = grounded(c);
    assert(!plugin_abi::is_level(x) || !plugin_abi::is_level(y)) by {
        if plugin_abi::is_level(x) && plugin_abi::is_level(y) {
            assert forall|j: int| 0 <= j < i + 1 implies plugin_abi::is_level(
                #[trigger] signal::bit_of(a, j),
            ) && plugin_abi::is_level(signal::bit_of(b, j)) by {
                if j < i {
                    assert(plugin_abi::is_level(signal::bit_of(a, j)));
                    assert(plugin_abi::is_level(signal::bit_of(b, j)));
                }
            }
            assert forall|j: int| 0 <= j < i + 1 implies plugin_abi::is_level(
                #[trigger] signal::bit_of(b, j),
            ) by {
                assert(plugin_abi::is_level(signal::bit_of(a, j)));
            }
        }
    }
    if c != Bit::Error {
        let added = (GateView::Adder { bits }).eval(ins).1;
        assert forall|j: int| i <= j < n implies #[trigger] added[0][j] == carry(
            a,
            b,
            d,
            i + 1,
        ) by {
            poison_is_carried(a, b, d, i, (j + 1) as nat);
            poison_is_carried(a, b, d, i, i + 1);
        }
        poison_is_carried(a, b, d, i, i + 1);
        poison_is_carried(a, b, d, i, n);
        sum_value(a, b, d, i, i);
        let low = sum(a, b, d, i);
        signal::value_of_fitted(added[0], i, i);
        assert(signal::fitted(added[0], i) =~= low);
        signal::value_bound(low, i);
        unit_times(carry(a, b, d, i), power2::pow2(i));
        let total = signal::value_of(a, i) + signal::value_of(b, i) + unit(d);
        div_mod::lemma_fundamental_div_mod_converse(
            total as int,
            power2::pow2(i) as int,
            unit(carry(a, b, d, i)) as int,
            signal::value_of(low, i) as int,
        );
        assert forall|j: int| 0 <= j < i implies plugin_abi::is_level(
            #[trigger] signal::bit_of(added[0], j),
        ) by {
            assert(plugin_abi::is_level(signal::bit_of(low, j)));
            assert(low[j] == added[0][j]);
        }
        let nb = complement(b);
        let nd = plugin_abi::negated(d);
        let subtracted = (GateView::Subtractor { bits }).eval(ins).1;
        complement_value(b, i);
        if i < b.len() {
            assert(signal::bit_of(nb, i as int) == plugin_abi::negated(y));
        } else {
            assert(signal::bit_of(nb, i as int) == Bit::Unknown);
        }
        assert forall|j: int| i <= j < n implies #[trigger] subtracted[0][j] == carry(
            a,
            nb,
            nd,
            i + 1,
        ) by {
            poison_is_carried(a, nb, nd, i, (j + 1) as nat);
            poison_is_carried(a, nb, nd, i, i + 1);
        }
        poison_is_carried(a, nb, nd, i, i + 1);
        poison_is_carried(a, nb, nd, i, n);
    }
}

/// A carry or borrow in that is an error makes an error of every bit and of the carry or borrow
/// out.
pub proof fn an_error_carried_in_is_carried_through(bits: u8, ins: Seq<Seq<Bit>>)
    requires
        ins.len() == 3,
        signal::bit_of(ins[2], 0) == Bit::Error,
    ensures
        (GateView::Adder { bits }).eval(ins).1 == seq![
            signal::filled(bits as nat, Bit::Error),
            seq![Bit::Error],
        ],
        (GateView::Subtractor { bits }).eval(ins).1 == seq![
            signal::filled(bits as nat, Bit::Error),
            seq![Bit::Error],
        ],
{
    let a = ins[0];
    let b = ins[1];
    let added = (GateView::Adder { bits }).eval(ins).1;
    let subtracted = (GateView::Subtractor { bits }).eval(ins).1;
    assert forall|j: int| 0 <= j < bits implies #[trigger] added[0][j] == Bit::Error by {
        error_is_carried(a, b, (j + 1) as nat);
    }
    assert forall|j: int| 0 <= j < bits implies #[trigger] subtracted[0][j] == Bit::Error by {
        error_is_carried(a, complement(b), (j + 1) as nat);
    }
    error_is_carried(a, b, bits as nat);
    error_is_carried(a, complement(b), bits as nat);
    assert(added[0] =~= signal::filled(bits as nat, Bit::Error));
    assert(subtracted[0] =~= signal::filled(bits as nat, Bit::Error));
    assert(added =~= seq![signal::filled(bits as nat, Bit::Error), seq![Bit::Error]]);
    assert(subtracted =~= seq![signal::filled(bits as nat, Bit::Error), seq![Bit::Error]]);
}

/// A comparator says of fully defined operands which one is greater, by their numbers or, where
/// it is signed, with the top bit counted negative. Exactly one of its outputs reads `One`.
pub proof fn comparators_order_numbers(bits: u8, signed: bool, ins: Seq<Seq<Bit>>)
    requires
        ins.len() == 2,
        bits > 0,
        signal::defined(ins[0], bits as nat),
        signal::defined(ins[1], bits as nat),
    ensures
        ({
            let n = bits as nat;
            let out = (GateView::Comparator { bits, signed }).eval(ins).1;
            let x = signal::value_of(ins[0], n) - (if signed && signal::bit_of(ins[0], n - 1)
                == Bit::One {
                power2::pow2(n) as int
            } else {
                0int
            });
            let y = signal::value_of(ins[1], n) - (if signed && signal::bit_of(ins[1], n - 1)
                == Bit::One {
                power2::pow2(n) as int
            } else {
                0int
            });
            &&& out.len() == 3
            &&& out[0] == seq![
                if x > y {
                    Bit::One
                } else {
                    Bit::Zero
                },
            ]
            &&& out[1] == seq![
                if x == y {
                    Bit::One
                } else {
                    Bit::Zero
                },
            ]
            &&& out[2] == seq![
                if x < y {
                    Bit::One
                } else {
                    Bit::Zero
                },
            ]
        }),
{
    assert(ins =~= seq![ins[0], ins[1]]);
    comparator_compares(bits, signed, ins[0], ins[1]);
}

/// A comparator looks at its operands from the top: where the bits above position `i` are equal
/// levels, an undefined bit at `i` is what all of its outputs read, an error before an undriven
/// one, and two different levels there decide, whatever is below.
pub proof fn comparators_decide_at_the_highest_difference(
    bits: u8,
    signed: bool,
    ins: Seq<Seq<Bit>>,
    i: nat,
)
    requires
        ins.len() == 2,
        i < bits,
        forall|j: int|
            i < j < bits ==> #[trigger] signal::bit_of(ins[0], j) == signal::bit_of(ins[1], j)
                && plugin_abi::is_level(signal::bit_of(ins[0], j)),
    ensures
        ({
            let out = (GateView::Comparator { bits, signed }).eval(ins).1;
            let x = signal::bit_of(ins[0], i as int);
            let y = signal::bit_of(ins[1], i as int);
            &&& out.len() == 3
            &&& x == Bit::Error || y == Bit::Error ==> out == seq![
                seq![Bit::Error],
                seq![Bit::Error],
                seq![Bit::Error],
            ]
            &&& x != Bit::Error && y != Bit::Error && (x == Bit::Unknown || y == Bit::Unknown)
                ==> out == seq![seq![Bit::Unknown], seq![Bit::Unknown], seq![Bit::Unknown]]
            &&& x == Bit::One && y == Bit::Zero ==> out == (if signed && i + 1 == bits {
                seq![seq![Bit::Zero], seq![Bit::Zero], seq![Bit::One]]
            } else {
                seq![seq![Bit::One], seq![Bit::Zero], seq![Bit::Zero]]
            })
            &&& x == Bit::Zero && y == Bit::One ==> out == (if signed && i + 1 == bits {
                seq![seq![Bit::One], seq![Bit::Zero], seq![Bit::Zero]]
            } else {
                seq![seq![Bit::Zero], seq![Bit::Zero], seq![Bit::One]]
            })
        }),
{
    equal_bits_are_passed_over(ins[0], ins[1], bits as nat, signed, i, bits as nat);
}

proof fn equal_bits_are_passed_over(
    a: Seq<Bit>,
    b: Seq<Bit>,
    n: nat,
    signed: bool,
    i: nat,
    k: nat,
)
    requires
        i < k <= n,
        forall|j: int|
            i < j < n ==> #[trigger] signal::bit_of(a, j) == signal::bit_of(b, j)
                && plugin_abi::is_level(signal::bit_of(a, j)),
    ensures
        ordering_bits(a, b, n, signed, k) == ordering_bits(a, b, n, signed, i + 1),
    decreases k,
{
    if k > i + 1 {
        assert(plugin_abi::is_level(signal::bit_of(a, k - 1)));
        equal_bits_are_passed_over(a, b, n, signed, i, (k - 1) as nat);
    }
}

/// A pin none of whose bits is driven.
pub open spec fn is_undriven(s: Seq<Bit>) -> bool {
    forall|i: int| 0 <= i < s.len() ==> #[trigger] s[i] == Bit::Unknown
}

/// A multiplier outputs the product of its operands and its carry in, low half and high half; a
/// divider divides its operands, the upper half of the dividend coming in beside, into quotient
/// and remainder, a divisor of zero counting as one. An undriven third pin counts as zero.
pub proof fn products_and_quotients(bits: u8, ins: Seq<Seq<Bit>>, z: int)
    requires
        ins.len() == 3,
        bits <= 32,
        signal::defined(ins[0], bits as nat),
        signal::defined(ins[1], bits as nat),
        is_undriven(ins[2]) ==> z == 0,
        !is_undriven(ins[2]) ==> signal::defined(ins[2], bits as nat) && z == signal::value_of(
            ins[2],
            bits as nat,
        ),
    ensures
        ({
            let n = bits as nat;
            let w = power2::pow2(n) as int;
            let x = signal::value_of(ins[0], n) as int;
            let y = signal::value_of(ins[1], n) as int;
            let multiplied = (GateView::Multiplier { bits }).eval(ins).1;
            let divided = (GateView::Divider { bits }).eval(ins).1;
            let by = if y == 0 {
                1
            } else {
                y
            };
            &&& multiplied == seq![
                signal::bits_of(x * y + z, n),
                signal::bits_of((x * y + z) / w, n),
            ]
            &&& divided == seq![
                signal::bits_of((z * w + x) / by, n),
                signal::bits_of((z * w + x) % by, n),
            ]
        }),
{
    let n = bits as nat;
    let g = grounded_word(ins[2], n);
    if is_undriven(ins[2]) {
        assert forall|i: int| 0 <= i < ins[2].len() implies ins[2][i] == Bit::Unknown by {}
        assert forall|i: int| 0 <= i < n implies plugin_abi::is_level(
            #[trigger] signal::bit_of(g, i),
        ) by {}
        zeros_are_zero(n, n);
    }
}

proof fn zeros_are_zero(n: nat, k: nat)
    requires
        k <= n,
    ensures
        signal::value_of(signal::filled(n, Bit::Zero), k) == 0,
    decreases k,
{
    if k > 0 {
        zeros_are_zero(n, (k - 1) as nat);
    }
}

/// A multiplier and a divider with an operand that is not fully defined read one undefined bit
/// all over: `Error` where there is one anywhere on their pins, `Unknown` otherwise.
pub proof fn products_of_undefined_numbers(bits: u8, ins: Seq<Seq<Bit>>)
    requires
        ins.len() == 3,
        !signal::defined(ins[0], bits as nat) || !signal::defined(ins[1], bits as nat) || (
        !is_undriven(ins[2]) && !signal::defined(ins[2], bits as nat)),
    ensures
        ({
            let any_error = ins[0].contains(Bit::Error) || ins[1].contains(Bit::Error)
                || ins[2].contains(Bit::Error);
            let all = signal::filled(
                bits as nat,
                if any_error {
                    Bit::Error
                } else {
                    Bit::Unknown
                },
            );
            &&& (GateView::Multiplier { bits }).eval(ins).1 == seq![all, all]
            &&& (GateView::Divider { bits }).eval(ins).1 == seq![all, all]
        }),
{
    let n = bits as nat;
    let g = grounded_word(ins[2], n);
    if is_undriven(ins[2]) {
        assert forall|i: int| 0 <= i < ins[2].len() implies ins[2][i] == Bit::Unknown by {}
        assert(!g.contains(Bit::Error)) by {
            if g.contains(Bit::Error) {
                let i = choose|i: int| 0 <= i < g.len() && g[i] == Bit::Error;
                assert(g[i] == Bit::Zero);
            }
        }
        assert(!ins[2].contains(Bit::Error)) by {
            if ins[2].contains(Bit::Error) {
                let i = choose|i: int| 0 <= i < ins[2].len() && ins[2][i] == Bit::Error;
                assert(ins[2][i] == Bit::Unknown);
            }
        }
    } else {
        assert(g == ins[2]);
    }
}

} // verus!
