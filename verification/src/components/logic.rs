//! Combinational, stateless gates: And, Or, Not, Nand, Nor, Xor, Xnor, Buffer and
//! ControlledBuffer. All of them work bit position by bit position.
use vstd::prelude::*;
use super::signal::{bit_at, fill, fit};
use super::{signal, Gate, GateView};
use crate::plugin_abi;
use crate::plugin_abi::{Bit, Signal};

verus! {

/// The conjunction of bit `i` of the first `k` inputs, seeded with the first input's bit.
pub open spec fn all_of(ins: Seq<Seq<Bit>>, i: int, k: nat) -> Bit
    decreases k,
{
    if k <= 1 {
        signal::bit_of(ins[0], i)
    } else {
        plugin_abi::conj(all_of(ins, i, (k - 1) as nat), signal::bit_of(ins[k - 1], i))
    }
}

/// The disjunction of bit `i` of the first `k` inputs, seeded with the first input's bit.
pub open spec fn any_of(ins: Seq<Seq<Bit>>, i: int, k: nat) -> Bit
    decreases k,
{
    if k <= 1 {
        signal::bit_of(ins[0], i)
    } else {
        plugin_abi::disj(any_of(ins, i, (k - 1) as nat), signal::bit_of(ins[k - 1], i))
    }
}

/// How many of the first `k` inputs read `One` at bit `i`.
pub open spec fn ones(ins: Seq<Seq<Bit>>, i: int, k: nat) -> nat
    decreases k,
{
    if k == 0 {
        0
    } else {
        ones(ins, i, (k - 1) as nat) + (if signal::bit_of(ins[k - 1], i) == Bit::One {
            1nat
        } else {
            0nat
        })
    }
}

/// `One` if exactly one input reads `One` at bit `i`, `Error` if any is undefined there.
pub open spec fn exactly_one(ins: Seq<Seq<Bit>>, i: int) -> Bit {
    if exists|j: int|
        0 <= j < ins.len() && !plugin_abi::is_level(signal::bit_of(#[trigger] ins[j], i)) {
        Bit::Error
    } else if ones(ins, i, ins.len()) == 1 {
        Bit::One
    } else {
        Bit::Zero
    }
}

/// What a controlled buffer drives: its data while enabled, nothing while disabled, `Error`
/// while the control pin is undefined.
pub open spec fn gated(control: Bit, data: Seq<Bit>, n: nat) -> Seq<Bit> {
    match control {
        Bit::One => signal::fitted(data, n),
        Bit::Zero => signal::filled(n, Bit::Unknown),
        _ => signal::filled(n, Bit::Error),
    }
}

/// The output pins of a logic gate.
pub open spec fn outputs(g: GateView, ins: Seq<Seq<Bit>>) -> Seq<Seq<Bit>> {
    match g {
        GateView::And { bits, .. } => seq![Seq::new(bits as nat, |i: int| all_of(ins, i, ins.len()))],
        GateView::Or { bits, .. } => seq![Seq::new(bits as nat, |i: int| any_of(ins, i, ins.len()))],
        GateView::Not { bits } => seq![
            Seq::new(bits as nat, |i: int| plugin_abi::negated(signal::bit_of(ins[0], i))),
        ],
        GateView::Nand { bits, .. } => seq![
            Seq::new(bits as nat, |i: int| plugin_abi::negated(all_of(ins, i, ins.len()))),
        ],
        GateView::Nor { bits, .. } => seq![
            Seq::new(bits as nat, |i: int| plugin_abi::negated(any_of(ins, i, ins.len()))),
        ],
        GateView::Xor { bits, .. } => seq![Seq::new(bits as nat, |i: int| exactly_one(ins, i))],
        GateView::Xnor { bits, .. } => seq![
            Seq::new(bits as nat, |i: int| plugin_abi::negated(exactly_one(ins, i))),
        ],
        GateView::Buffer { bits } => seq![
            Seq::new(bits as nat, |i: int| signal::bit_of(ins[0], i)),
        ],
        GateView::ControlledBuffer { bits } => seq![
            gated(signal::bit_of(ins[1], 0), ins[0], bits as nat),
        ],
        _ => Seq::empty(),
    }
}

/// The input lists that a logic gate can be evaluated on.
pub open spec fn accepts(g: GateView, ins: Seq<Seq<Bit>>) -> bool {
    match g {
        GateView::Xor { .. } | GateView::Xnor { .. } => true,
        GateView::ControlledBuffer { .. } => ins.len() >= 2,
        _ => output_width(g) > 0 ==> ins.len() >= 1,
    }
}

pub open spec fn input_count(g: GateView) -> nat {
    match g {
        GateView::And { inputs, .. } => inputs as nat,
        GateView::Or { inputs, .. } => inputs as nat,
        GateView::Nand { inputs, .. } => inputs as nat,
        GateView::Nor { inputs, .. } => inputs as nat,
        GateView::Xor { inputs, .. } => inputs as nat,
        GateView::Xnor { inputs, .. } => inputs as nat,
        GateView::ControlledBuffer { .. } => 2,
        _ => 1,
    }
}

/// Every pin has its gate's width, but for the one-bit control pin of a controlled buffer.
pub open spec fn input_width(g: GateView, pin: int) -> u8 {
    if g is ControlledBuffer && pin != 0 {
        1
    } else {
        output_width(g)
    }
}

pub open spec fn output_width(g: GateView) -> u8 {
    match g {
        GateView::And { bits, .. } => bits,
        GateView::Or { bits, .. } => bits,
        GateView::Not { bits } => bits,
        GateView::Nand { bits, .. } => bits,
        GateView::Nor { bits, .. } => bits,
        GateView::Xor { bits, .. } => bits,
        GateView::Xnor { bits, .. } => bits,
        GateView::Buffer { bits } => bits,
        GateView::ControlledBuffer { bits } => bits,
        _ => 0,
    }
}

/// Folds the inputs with `and`, bit position by bit position.
fn fold_and(inputs: &[Signal], bits: u8) -> (r: Signal)
    requires
        bits > 0 ==> inputs@.len() >= 1,
    ensures
        r@ == Seq::new(
            bits as nat,
            |i: int| all_of(plugin_abi::signals(inputs@), i, inputs@.len()),
        ),
{
    let ghost ins = plugin_abi::signals(inputs@);
    let mut out: Signal = Vec::new();
    for i in 0..bits as usize
        invariant
            ins == plugin_abi::signals(inputs@),
            bits > 0 ==> inputs@.len() >= 1,
            out@ == Seq::new(i as nat, |i: int| all_of(ins, i, ins.len())),
    {
        let mut acc: Bit = bit_at(&inputs[0], i);
        for k in 1..inputs.len()
            invariant
                ins == plugin_abi::signals(inputs@),
                inputs@.len() >= 1,
                acc == all_of(ins, i as int, k as nat),
        {
            acc = acc.and(bit_at(&inputs[k], i));
        }
        out.push(acc);
        assert(out@ =~= Seq::new((i + 1) as nat, |i: int| all_of(ins, i, ins.len())));
    }
    out
}

/// Folds the inputs with `or`, bit position by bit position.
fn fold_or(inputs: &[Signal], bits: u8) -> (r: Signal)
    requires
        bits > 0 ==> inputs@.len() >= 1,
    ensures
        r@ == Seq::new(
            bits as nat,
            |i: int| any_of(plugin_abi::signals(inputs@), i, inputs@.len()),
        ),
{
    let ghost ins = plugin_abi::signals(inputs@);
    let mut out: Signal = Vec::new();
    for i in 0..bits as usize
        invariant
            ins == plugin_abi::signals(inputs@),
            bits > 0 ==> inputs@.len() >= 1,
            out@ == Seq::new(i as nat, |i: int| any_of(ins, i, ins.len())),
    {
        let mut acc: Bit = bit_at(&inputs[0], i);
        for k in 1..inputs.len()
            invariant
                ins == plugin_abi::signals(inputs@),
                inputs@.len() >= 1,
                acc == any_of(ins, i as int, k as nat),
        {
            acc = acc.or(bit_at(&inputs[k], i));
        }
        out.push(acc);
        assert(out@ =~= Seq::new((i + 1) as nat, |i: int| any_of(ins, i, ins.len())));
    }
    out
}

proof fn ones_bound(ins: Seq<Seq<Bit>>, i: int, k: nat)
    ensures
        ones(ins, i, k) <= k,
    decreases k,
{
    if k > 0 {
        ones_bound(ins, i, (k - 1) as nat);
    }
}

/// Counts the `One`s, bit position by bit position.
fn fold_xor_one(inputs: &[Signal], bits: u8) -> (r: Signal)
    ensures
        r@ == Seq::new(bits as nat, |i: int| exactly_one(plugin_abi::signals(inputs@), i)),
{
    let ghost ins = plugin_abi::signals(inputs@);
    let mut out: Signal = Vec::new();
    for i in 0..bits as usize
        invariant
            ins == plugin_abi::signals(inputs@),
            out@ == Seq::new(i as nat, |i: int| exactly_one(ins, i)),
    {
        let mut count: usize = 0;
        let mut error: bool = false;
        for k in 0..inputs.len()
            invariant
                ins == plugin_abi::signals(inputs@),
                count == ones(ins, i as int, k as nat),
                count <= k,
                error == exists|j: int|
                    0 <= j < k && !plugin_abi::is_level(
                        signal::bit_of(#[trigger] ins[j], i as int),
                    ),
        {
            assert(ins[k as int] == inputs@[k as int]@);
            let ghost before = error;
            match bit_at(&inputs[k], i) {
                Bit::One => {
                    count = count + 1;
                },
                Bit::Zero => {},
                Bit::Unknown | Bit::Error => {
                    error = true;
                },
            }
            proof {
                ones_bound(ins, i as int, (k + 1) as nat);
            }
        }
        out.push(
            if error {
                Bit::Error
            } else if count == 1 {
                Bit::One
            } else {
                Bit::Zero
            },
        );
        assert(out@ =~= Seq::new((i + 1) as nat, |i: int| exactly_one(ins, i)));
    }
    out
}

/// Negates every bit.
fn not_bits(signal: Signal) -> (r: Signal)
    ensures
        r@ == Seq::new(signal@.len(), |i: int| plugin_abi::negated(signal@[i])),
{
    let mut out: Signal = Vec::new();
    for i in 0..signal.len()
        invariant
            out@ == Seq::new(i as nat, |i: int| plugin_abi::negated(signal@[i])),
    {
        out.push(signal[i].not());
        assert(out@ =~= Seq::new((i + 1) as nat, |i: int| plugin_abi::negated(signal@[i])));
    }
    out
}

/// The output of a controlled buffer.
fn controlled_buffer_output(control: Bit, data: &Signal, bits: u8) -> (r: Signal)
    ensures
        r@ == gated(control, data@, bits as nat),
{
    match control {
        Bit::One => fit(data, bits),
        Bit::Error | Bit::Unknown => fill(Bit::Error, bits as usize),
        Bit::Zero => fill(Bit::Unknown, bits as usize),
    }
}

impl Gate {
    pub(crate) fn input_count_logic(&self) -> (r: usize)
        requires
            self@.category() is Logic,
        ensures
            r == input_count(self@),
    {
        match self {
            Gate::And { inputs, .. } => *inputs,
            Gate::Or { inputs, .. } => *inputs,
            Gate::Nand { inputs, .. } => *inputs,
            Gate::Nor { inputs, .. } => *inputs,
            Gate::Xor { inputs, .. } => *inputs,
            Gate::Xnor { inputs, .. } => *inputs,
            Gate::ControlledBuffer { .. } => 2,
            _ => 1,
        }
    }

    pub(crate) fn eval_logic(&self, inputs: &[Signal]) -> (out: Vec<Signal>)
        requires
            self@.category() is Logic,
            accepts(self@, plugin_abi::signals(inputs@)),
        ensures
            plugin_abi::signals(out@) == outputs(self@, plugin_abi::signals(inputs@)),
    {
        let ghost ins = plugin_abi::signals(inputs@);
        let pin: Signal = match self {
            Gate::And { bits, .. } => fold_and(inputs, *bits),
            Gate::Or { bits, .. } => fold_or(inputs, *bits),
            Gate::Not { bits } => {
                if *bits == 0 {
                    Vec::new()
                } else {
                    not_bits(fit(&inputs[0], *bits))
                }
            },
            Gate::Nand { bits, .. } => not_bits(fold_and(inputs, *bits)),
            Gate::Nor { bits, .. } => not_bits(fold_or(inputs, *bits)),
            Gate::Xor { bits, .. } => fold_xor_one(inputs, *bits),
            Gate::Xnor { bits, .. } => not_bits(fold_xor_one(inputs, *bits)),
            Gate::Buffer { bits } => {
                if *bits == 0 {
                    Vec::new()
                } else {
                    fit(&inputs[0], *bits)
                }
            },
            Gate::ControlledBuffer { bits } => {
                controlled_buffer_output(bit_at(&inputs[1], 0), &inputs[0], *bits)
            },
            _ => Vec::new(),
        };
        assert(pin@ =~= outputs(self@, ins)[0]);
        let out: Vec<Signal> = vec![pin];
        assert(plugin_abi::signals(out@) =~= outputs(self@, ins));
        out
    }

    pub(crate) fn input_width_logic(&self, pin: usize) -> (r: u8)
        ensures
            r == input_width(self@, pin as int),
    {
        match self {
            Gate::ControlledBuffer { bits } => {
                if pin == 0 {
                    *bits
                } else {
                    1
                }
            },
            _ => self.output_width_logic(),
        }
    }

    pub(crate) fn output_width_logic(&self) -> (r: u8)
        ensures
            r == output_width(self@),
    {
        match self {
            Gate::And { bits, .. } => *bits,
            Gate::Or { bits, .. } => *bits,
            Gate::Not { bits } => *bits,
            Gate::Nand { bits, .. } => *bits,
            Gate::Nor { bits, .. } => *bits,
            Gate::Xor { bits, .. } => *bits,
            Gate::Xnor { bits, .. } => *bits,
            Gate::Buffer { bits } => *bits,
            Gate::ControlledBuffer { bits } => *bits,
            _ => 0,
        }
    }
}

proof fn all_of_cases(ins: Seq<Seq<Bit>>, i: int, k: nat)
    requires
        2 <= k <= ins.len(),
    ensures
        all_of(ins, i, k) == Bit::Zero <==> exists|j: int|
            0 <= j < k && signal::bit_of(#[trigger] ins[j], i) == Bit::Zero,
        all_of(ins, i, k) == Bit::One <==> forall|j: int|
            0 <= j < k ==> signal::bit_of(#[trigger] ins[j], i) == Bit::One,
        all_of(ins, i, k) != Bit::Unknown,
    decreases k,
{
    let last = ins[k - 1];
    if k == 2 {
        assert(all_of(ins, i, 1) == signal::bit_of(ins[0], i));
        assert(all_of(ins, i, 2) == plugin_abi::conj(
            signal::bit_of(ins[0], i),
            signal::bit_of(ins[1], i),
        ));
        assert(0 <= 0 < k && 0 <= 1 < k);
    } else {
        all_of_cases(ins, i, (k - 1) as nat);
    }
}

/// `and` over two or more inputs: `Zero` if and only if some input is `Zero`, `One` if and only
/// if all inputs are `One`, and `Error` otherwise; so the order of the inputs does not matter.
pub proof fn and_dominance(bits: u8, inputs: usize, ins: Seq<Seq<Bit>>, i: int)
    requires
        0 <= i < bits,
        ins.len() >= 2,
    ensures
        ({
            let b = outputs(GateView::And { bits, inputs }, ins)[0][i];
            &&& b == Bit::Zero <==> exists|j: int|
                0 <= j < ins.len() && signal::bit_of(#[trigger] ins[j], i) == Bit::Zero
            &&& b == Bit::One <==> forall|j: int|
                0 <= j < ins.len() ==> signal::bit_of(#[trigger] ins[j], i) == Bit::One
            &&& b != Bit::Unknown
        }),
{
    all_of_cases(ins, i, ins.len());
}

proof fn any_of_cases(ins: Seq<Seq<Bit>>, i: int, k: nat)
    requires
        2 <= k <= ins.len(),
    ensures
        any_of(ins, i, k) == Bit::One <==> exists|j: int|
            0 <= j < k && signal::bit_of(#[trigger] ins[j], i) == Bit::One,
        any_of(ins, i, k) == Bit::Zero <==> forall|j: int|
            0 <= j < k ==> signal::bit_of(#[trigger] ins[j], i) == Bit::Zero,
        any_of(ins, i, k) != Bit::Unknown,
    decreases k,
{
    let last = ins[k - 1];
    if k == 2 {
        assert(any_of(ins, i, 1) == signal::bit_of(ins[0], i));
        assert(any_of(ins, i, 2) == plugin_abi::disj(
            signal::bit_of(ins[0], i),
            signal::bit_of(ins[1], i),
        ));
        assert(0 <= 0 < k && 0 <= 1 < k);
    } else {
        any_of_cases(ins, i, (k - 1) as nat);
    }
}

/// `or` over two or more inputs: `One` if and only if some input is `One`, `Zero` if and only
/// if all inputs are `Zero`, and `Error` otherwise.
pub proof fn or_dominance(bits: u8, inputs: usize, ins: Seq<Seq<Bit>>, i: int)
    requires
        0 <= i < bits,
        ins.len() >= 2,
    ensures
        ({
            let b = outputs(GateView::Or { bits, inputs }, ins)[0][i];
            &&& b == Bit::One <==> exists|j: int|
                0 <= j < ins.len() && signal::bit_of(#[trigger] ins[j], i) == Bit::One
            &&& b == Bit::Zero <==> forall|j: int|
                0 <= j < ins.len() ==> signal::bit_of(#[trigger] ins[j], i) == Bit::Zero
            &&& b != Bit::Unknown
        }),
{
    any_of_cases(ins, i, ins.len());
}

/// Nand, Nor and Xnor are the bitwise negations of And, Or and Xor.
pub proof fn negated_gates(bits: u8, inputs: usize, ins: Seq<Seq<Bit>>, i: int)
    requires
        0 <= i < bits,
    ensures
        outputs(GateView::Nand { bits, inputs }, ins)[0][i] == plugin_abi::negated(
            outputs(GateView::And { bits, inputs }, ins)[0][i],
        ),
        outputs(GateView::Nor { bits, inputs }, ins)[0][i] == plugin_abi::negated(
            outputs(GateView::Or { bits, inputs }, ins)[0][i],
        ),
        outputs(GateView::Xnor { bits, inputs }, ins)[0][i] == plugin_abi::negated(
            outputs(GateView::Xor { bits, inputs }, ins)[0][i],
        ),
{
}

/// A logic gate works bit position by bit position: an output bit depends on the input bits
/// at its own position only.
pub proof fn bitwise(g: GateView, ins: Seq<Seq<Bit>>, other: Seq<Seq<Bit>>, i: int)
    requires
        g.category() is Logic,
        !(g is ControlledBuffer),
        0 <= i < output_width(g),
        ins.len() == other.len() >= 1,
        forall|j: int|
            0 <= j < ins.len() ==> signal::bit_of(#[trigger] ins[j], i) == signal::bit_of(
                other[j],
                i,
            ),
    ensures
        outputs(g, ins)[0][i] == outputs(g, other)[0][i],
{
    bitwise_folds(ins, other, i, ins.len());
    assert(exactly_one(ins, i) == exactly_one(other, i)) by {
        if exists|j: int|
            0 <= j < ins.len() && !plugin_abi::is_level(signal::bit_of(#[trigger] ins[j], i)) {
            let j = choose|j: int|
                0 <= j < ins.len() && !plugin_abi::is_level(signal::bit_of(#[trigger] ins[j], i));
            assert(!plugin_abi::is_level(signal::bit_of(other[j], i)));
        } else {
            assert forall|j: int| 0 <= j < ins.len() implies plugin_abi::is_level(
                signal::bit_of(#[trigger] other[j], i),
            ) by {
                assert(signal::bit_of(ins[j], i) == signal::bit_of(other[j], i));
            }
        }
    }
    assert(signal::bit_of(ins[0], i) == signal::bit_of(other[0], i));
}

proof fn bitwise_folds(ins: Seq<Seq<Bit>>, other: Seq<Seq<Bit>>, i: int, k: nat)
    requires
        ins.len() == other.len() >= 1,
        k <= ins.len(),
        forall|j: int|
            0 <= j < ins.len() ==> signal::bit_of(#[trigger] ins[j], i) == signal::bit_of(
                other[j],
                i,
            ),
    ensures
        all_of(ins, i, k) == all_of(other, i, k),
        any_of(ins, i, k) == any_of(other, i, k),
        ones(ins, i, k) == ones(other, i, k),
    decreases k,
{
    assert(signal::bit_of(ins[0], i) == signal::bit_of(other[0], i));
    if k > 0 {
        bitwise_folds(ins, other, i, (k - 1) as nat);
        assert(signal::bit_of(ins[k - 1], i) == signal::bit_of(other[k - 1], i));
    }
}

} // verus!
