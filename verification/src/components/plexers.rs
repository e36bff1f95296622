//! Multiplexer, Demultiplexer, Decoder and PriorityEncoder.
//!
//! The first three share one decision: the enable pin and the select pin together either pick
//! a line, or make every output read the same value.
use vstd::prelude::*;
use vstd::arithmetic::power2;
use super::signal::{bit_at, fill, fit, u32_to_signal};
use super::{signal, Gate, GateView};
use crate::plugin_abi;
use crate::plugin_abi::{Bit, Signal};

verus! {

/// The decision of an enable pin and a select pin.
pub enum Choice {
    /// This line is picked.
    Line(nat),
    /// No line is picked: all bits of all outputs read this value.
    Uniform(Bit),
}

/// One of the low `n` bits of a signal is `b`.
pub open spec fn some_bit(s: Seq<Bit>, n: nat, b: Bit) -> bool {
    exists|i: int| 0 <= i < n && #[trigger] signal::bit_of(s, i) == b
}

/// The line that a select pin picks: an `Error` bit outweighs an undriven one.
pub open spec fn selected(select: Seq<Bit>, select_bits: nat) -> Choice {
    if some_bit(select, select_bits, Bit::Error) {
        Choice::Uniform(Bit::Error)
    } else if some_bit(select, select_bits, Bit::Unknown) {
        Choice::Uniform(Bit::Unknown)
    } else {
        Choice::Line(signal::value_of(select, select_bits))
    }
}

/// What a disabled plexer drives.
pub open spec fn disabled_bit(disabled_zero: bool) -> Bit {
    if disabled_zero {
        Bit::Zero
    } else {
        Bit::Unknown
    }
}

/// The full decision: `Zero` disables, a conflict on the enable pin is passed on, anything
/// else, an undriven enable pin included, lets the select pin decide.
pub open spec fn decision(
    enable: Bit,
    disabled_zero: bool,
    select: Seq<Bit>,
    select_bits: nat,
) -> Choice {
    match enable {
        Bit::Zero => Choice::Uniform(disabled_bit(disabled_zero)),
        Bit::Error => Choice::Uniform(Bit::Error),
        _ => selected(select, select_bits),
    }
}

/// What an output that is not picked reads.
pub open spec fn idle_bit(tristate: bool) -> Bit {
    if tristate {
        Bit::Unknown
    } else {
        Bit::Zero
    }
}

/// `n` outputs of `w` bits of which the picked one reads `active`.
pub open spec fn spread(
    choice: Choice,
    n: nat,
    w: nat,
    active: Seq<Bit>,
    idle: Bit,
) -> Seq<Seq<Bit>> {
    Seq::new(
        n,
        |i: int|
            match choice {
                Choice::Line(k) => if i == k {
                    active
                } else {
                    signal::filled(w, idle)
                },
                Choice::Uniform(b) => signal::filled(w, b),
            },
    )
}

/// The highest of the first `k` lines that reads `One`.
pub open spec fn highest_line(ins: Seq<Seq<Bit>>, k: nat) -> Option<nat>
    decreases k,
{
    if k == 0 {
        None
    } else if signal::bit_of(ins[k - 1], 0) == Bit::One {
        Some((k - 1) as nat)
    } else {
        highest_line(ins, (k - 1) as nat)
    }
}

/// The output pins of a plexer.
pub open spec fn outputs(g: GateView, ins: Seq<Seq<Bit>>) -> Seq<Seq<Bit>> {
    match g {
        GateView::Mux { bits, select_bits, has_enable, disabled_zero } => {
            let n = power2::pow2(select_bits as nat) as int;
            let enable = if has_enable {
                signal::bit_of(ins[n + 1], 0)
            } else {
                Bit::One
            };
            seq![
                match decision(enable, disabled_zero, ins[n], select_bits as nat) {
                    Choice::Line(k) => signal::fitted(ins[k as int], bits as nat),
                    Choice::Uniform(b) => signal::filled(bits as nat, b),
                },
            ]
        },
        GateView::Demux { bits, select_bits, has_enable, disabled_zero, tristate } => {
            let enable = if has_enable {
                signal::bit_of(ins[1], 0)
            } else {
                Bit::One
            };
            let data = if has_enable {
                ins[2]
            } else {
                ins[1]
            };
            spread(
                decision(enable, disabled_zero, ins[0], select_bits as nat),
                power2::pow2(select_bits as nat),
                bits as nat,
                signal::fitted(data, bits as nat),
                idle_bit(tristate),
            )
        },
        GateView::Decoder { select_bits, has_enable, disabled_zero, tristate } => {
            let enable = if has_enable {
                signal::bit_of(ins[1], 0)
            } else {
                Bit::One
            };
            spread(
                decision(enable, disabled_zero, ins[0], select_bits as nat),
                power2::pow2(select_bits as nat),
                1,
                seq![Bit::One],
                idle_bit(tristate),
            )
        },
        GateView::PriorityEncoder { select_bits, disabled_zero } => {
            let n = power2::pow2(select_bits as nat);
            let w = select_bits as nat;
            // An `Error` on this enable pin counts as enabled.
            if signal::bit_of(ins[n as int], 0) == Bit::Zero {
                seq![signal::filled(w, disabled_bit(disabled_zero)), seq![Bit::Zero], seq![Bit::Zero]]
            } else {
                match highest_line(ins, n) {
                    Some(k) => seq![signal::bits_of(k as int, w), seq![Bit::Zero], seq![Bit::One]],
                    None => seq![signal::filled(w, Bit::Unknown), seq![Bit::One], seq![Bit::Zero]],
                }
            }
        },
        _ => Seq::empty(),
    }
}

pub open spec fn flag(b: bool) -> nat {
    if b {
        1
    } else {
        0
    }
}

pub open spec fn input_count(g: GateView) -> nat {
    match g {
        GateView::Mux { select_bits, has_enable, .. } => power2::pow2(select_bits as nat) + 1 + flag(
            has_enable,
        ),
        GateView::Demux { has_enable, .. } => 2 + flag(has_enable),
        GateView::Decoder { has_enable, .. } => 1 + flag(has_enable),
        GateView::PriorityEncoder { select_bits, .. } => power2::pow2(select_bits as nat) + 1,
        _ => 0,
    }
}

pub open spec fn output_count(g: GateView) -> nat {
    match g {
        GateView::Mux { .. } => 1,
        GateView::Demux { select_bits, .. } => power2::pow2(select_bits as nat),
        GateView::Decoder { select_bits, .. } => power2::pow2(select_bits as nat),
        _ => 3,
    }
}

pub open spec fn input_width(g: GateView, pin: int) -> u8 {
    match g {
        GateView::Mux { bits, select_bits, .. } => {
            if pin < power2::pow2(select_bits as nat) {
                bits
            } else if pin == power2::pow2(select_bits as nat) {
                select_bits
            } else {
                1
            }
        },
        GateView::Demux { bits, select_bits, has_enable, .. } => {
            if pin == 0 {
                select_bits
            } else if has_enable && pin == 1 {
                1
            } else {
                bits
            }
        },
        GateView::Decoder { select_bits, .. } => {
            if pin == 0 {
                select_bits
            } else {
                1
            }
        },
        _ => 1,
    }
}

pub open spec fn output_width(g: GateView, pin: int) -> u8 {
    match g {
        GateView::Mux { bits, .. } => bits,
        GateView::Demux { bits, .. } => bits,
        GateView::Decoder { .. } => 1,
        GateView::PriorityEncoder { select_bits, .. } => if pin == 0 {
            select_bits
        } else {
            1
        },
        _ => 0,
    }
}

/// The select widths whose lines can be numbered.
pub open spec fn valid(g: GateView) -> bool {
    match g {
        GateView::Mux { select_bits, .. } => select_bits < usize::BITS,
        GateView::Demux { select_bits, .. } => select_bits < usize::BITS,
        GateView::Decoder { select_bits, .. } => select_bits < usize::BITS,
        GateView::PriorityEncoder { select_bits, .. } => select_bits < usize::BITS && select_bits
            <= 32,
        _ => true,
    }
}

/// The input lists that a plexer can be evaluated on.
pub open spec fn accepts(g: GateView, ins: Seq<Seq<Bit>>) -> bool {
    ins.len() >= input_count(g)
}

enum Select {
    Defined(usize),
    Error,
    Undefined,
}

impl Select {
    spec fn choice(self) -> Choice {
        match self {
            Select::Defined(k) => Choice::Line(k as nat),
            Select::Error => Choice::Uniform(Bit::Error),
            Select::Undefined => Choice::Uniform(Bit::Unknown),
        }
    }
}

pub(crate) proof fn lines_fit(select_bits: nat)
    requires
        select_bits < usize::BITS,
    ensures
        0 < power2::pow2(select_bits) <= usize::MAX - 2,
{
    power2::lemma_pow2_pos(select_bits);
    power2::lemma2_to64();
    power2::lemma2_to64_rest();
    if select_bits < 31 {
        power2::lemma_pow2_strictly_increases(select_bits, 31);
    } else if 31 < select_bits < 63 {
        power2::lemma_pow2_strictly_increases(select_bits, 63);
    }
}

/// Two to the number of select bits.
pub(crate) fn line_count(select_bits: u8) -> (n: usize)
    requires
        select_bits < usize::BITS,
    ensures
        n == power2::pow2(select_bits as nat),
        0 < n <= usize::MAX - 2,
{
    proof {
        lines_fit(select_bits as nat);
        vstd::bits::lemma_usize_shl_is_mul(1usize, select_bits as usize);
    }
    1usize << (select_bits as usize)
}

fn decode_select(signal: &Signal, select_bits: u8) -> (r: Select)
    requires
        select_bits < usize::BITS,
    ensures
        r.choice() == selected(signal@, select_bits as nat),
        r matches Select::Defined(k) ==> k < power2::pow2(select_bits as nat),
{
    let mut value: usize = 0;
    let mut has_error: bool = false;
    let mut has_unknown: bool = false;
    for i in 0..select_bits as usize
        invariant
            select_bits < usize::BITS,
            value == signal::value_of(signal@, i as nat),
            has_error == some_bit(signal@, i as nat, Bit::Error),
            has_unknown == some_bit(signal@, i as nat, Bit::Unknown),
    {
        proof {
            signal::value_bound(signal@, (i + 1) as nat);
            lines_fit(i as nat);
            lines_fit(select_bits as nat);
            if i + 1 < select_bits {
                power2::lemma_pow2_strictly_increases((i + 1) as nat, select_bits as nat);
            }
            vstd::bits::lemma_usize_shl_is_mul(1usize, i);
            assert(forall|b: Bit|
                some_bit(signal@, (i + 1) as nat, b) <==> some_bit(signal@, i as nat, b)
                    || signal::bit_of(signal@, i as int) == b) by {
                assert forall|b: Bit|
                    some_bit(signal@, (i + 1) as nat, b) <==> some_bit(signal@, i as nat, b)
                        || signal::bit_of(signal@, i as int) == b by {
                    if some_bit(signal@, i as nat, b) {
                        let j = choose|j: int|
                            0 <= j < i && #[trigger] signal::bit_of(signal@, j) == b;
                        assert(signal::bit_of(signal@, j) == b);
                    }
                    if signal::bit_of(signal@, i as int) == b {
                        assert(some_bit(signal@, (i + 1) as nat, b));
                    }
                }
            }
        }
        match bit_at(signal, i) {
            Bit::One => {
                value = value + (1usize << i);
            },
            Bit::Zero => {},
            Bit::Error => {
                has_error = true;
            },
            Bit::Unknown => {
                has_unknown = true;
            },
        }
    }
    proof {
        signal::value_bound(signal@, select_bits as nat);
    }
    if has_error {
        Select::Error
    } else if has_unknown {
        Select::Undefined
    } else {
        Select::Defined(value)
    }
}

/// Either the picked line, or the bit that every output reads.
fn decide(enable: Bit, disabled_zero: bool, select: &Signal, select_bits: u8) -> (r: Result<
    usize,
    Bit,
>)
    requires
        select_bits < usize::BITS,
    ensures
        match r {
            Ok(k) => k < power2::pow2(select_bits as nat) && decision(
                enable,
                disabled_zero,
                select@,
                select_bits as nat,
            ) == Choice::Line(k as nat),
            Err(b) => decision(enable, disabled_zero, select@, select_bits as nat)
                == Choice::Uniform(b),
        },
{
    match enable {
        Bit::Zero => Err(
            if disabled_zero {
                Bit::Zero
            } else {
                Bit::Unknown
            },
        ),
        Bit::Error => Err(Bit::Error),
        Bit::One | Bit::Unknown => match decode_select(select, select_bits) {
            Select::Defined(k) => Ok(k),
            Select::Error => Err(Bit::Error),
            Select::Undefined => Err(Bit::Unknown),
        },
    }
}

/// `n` outputs of which the picked one reads `active`.
fn spread_out(picked: Result<usize, Bit>, n: usize, bits: u8, active: &Signal, idle: Bit) -> (r: Vec<
    Signal,
>)
    ensures
        plugin_abi::signals(r@) == spread(
            match picked {
                Ok(k) => Choice::Line(k as nat),
                Err(b) => Choice::Uniform(b),
            },
            n as nat,
            bits as nat,
            active@,
            idle,
        ),
{
    let ghost choice = match picked {
        Ok(k) => Choice::Line(k as nat),
        Err(b) => Choice::Uniform(b),
    };
    let ghost all = spread(choice, n as nat, bits as nat, active@, idle);
    let mut out: Vec<Signal> = Vec::new();
    for i in 0..n
        invariant
            choice == (match picked {
                Ok(k) => Choice::Line(k as nat),
                Err(b) => Choice::Uniform(b),
            }),
            all == spread(choice, n as nat, bits as nat, active@, idle),
            out@.len() == i,
            forall|j: int| 0 <= j < i ==> #[trigger] out@[j]@ == all[j],
    {
        let pin: Signal = match picked {
            Ok(k) => if i == k {
                active.clone()
            } else {
                fill(idle, bits as usize)
            },
            Err(b) => fill(b, bits as usize),
        };
        out.push(pin);
    }
    assert(plugin_abi::signals(out@) =~= all);
    out
}

/// The highest of the first `n` lines that reads `One`.
fn find_highest(inputs: &[Signal], n: usize) -> (r: Option<usize>)
    requires
        n <= inputs@.len(),
    ensures
        match r {
            Some(k) => k < n && highest_line(plugin_abi::signals(inputs@), n as nat) == Some(
                k as nat,
            ),
            None => highest_line(plugin_abi::signals(inputs@), n as nat) is None,
        },
{
    let mut k: usize = n;
    while k > 0
        invariant
            k <= n <= inputs@.len(),
            highest_line(plugin_abi::signals(inputs@), n as nat) == highest_line(
                plugin_abi::signals(inputs@),
                k as nat,
            ),
        decreases k,
    {
        k = k - 1;
        if bit_at(&inputs[k], 0) == Bit::One {
            return Some(k);
        }
    }
    None
}

impl Gate {
    pub(crate) fn input_count_plexers(&self) -> (r: usize)
        requires
            self@.category() is Plexers,
            valid(self@),
        ensures
            r == input_count(self@),
    {
        match self {
            Gate::Mux { select_bits, has_enable, .. } => {
                let n: usize = line_count(*select_bits);
                if *has_enable {
                    n + 2
                } else {
                    n + 1
                }
            },
            Gate::Demux { has_enable, .. } => if *has_enable {
                3
            } else {
                2
            },
            Gate::Decoder { has_enable, .. } => if *has_enable {
                2
            } else {
                1
            },
            Gate::PriorityEncoder { select_bits, .. } => line_count(*select_bits) + 1,
            _ => 0,
        }
    }

    pub(crate) fn output_count_plexers(&self) -> (r: usize)
        requires
            self@.category() is Plexers,
            valid(self@),
        ensures
            r == output_count(self@),
    {
        match self {
            Gate::Mux { .. } => 1,
            Gate::Demux { select_bits, .. } => line_count(*select_bits),
            Gate::Decoder { select_bits, .. } => line_count(*select_bits),
            _ => 3,
        }
    }

    pub(crate) fn input_width_plexers(&self, pin: usize) -> (r: u8)
        requires
            self@.category() is Plexers,
            valid(self@),
        ensures
            r == input_width(self@, pin as int),
    {
        match self {
            Gate::Mux { bits, select_bits, .. } => {
                let n: usize = line_count(*select_bits);
                if pin < n {
                    *bits
                } else if pin == n {
                    *select_bits
                } else {
                    1
                }
            },
            Gate::Demux { bits, select_bits, has_enable, .. } => {
                if pin == 0 {
                    *select_bits
                } else if *has_enable && pin == 1 {
                    1
                } else {
                    *bits
                }
            },
            Gate::Decoder { select_bits, .. } => {
                if pin == 0 {
                    *select_bits
                } else {
                    1
                }
            },
            _ => 1,
        }
    }

    pub(crate) fn output_width_plexers(&self, pin: usize) -> (r: u8)
        ensures
            r == output_width(self@, pin as int),
    {
        match self {
            Gate::Mux { bits, .. } => *bits,
            Gate::Demux { bits, .. } => *bits,
            Gate::Decoder { .. } => 1,
            Gate::PriorityEncoder { select_bits, .. } => if pin == 0 {
                *select_bits
            } else {
                1
            },
            _ => 0,
        }
    }

    pub(crate) fn eval_plexers(&self, inputs: &[Signal]) -> (out: Vec<Signal>)
        requires
            self@.category() is Plexers,
            valid(self@),
            accepts(self@, plugin_abi::signals(inputs@)),
        ensures
            plugin_abi::signals(out@) == outputs(self@, plugin_abi::signals(inputs@)),
    {
        let ghost ins = plugin_abi::signals(inputs@);
        match self {
            Gate::Mux { bits, select_bits, has_enable, disabled_zero } => {
                let n: usize = line_count(*select_bits);
                let enable: Bit = if *has_enable {
                    bit_at(&inputs[n + 1], 0)
                } else {
                    Bit::One
                };
                let pin: Signal = match decide(enable, *disabled_zero, &inputs[n], *select_bits) {
                    Ok(k) => fit(&inputs[k], *bits),
                    Err(b) => fill(b, *bits as usize),
                };
                let out: Vec<Signal> = vec![pin];
                assert(plugin_abi::signals(out@) =~= outputs(self@, ins));
                out
            },
            Gate::Demux { bits, select_bits, has_enable, disabled_zero, tristate } => {
                let n: usize = line_count(*select_bits);
                let enable: Bit = if *has_enable {
                    bit_at(&inputs[1], 0)
                } else {
                    Bit::One
                };
                let data: usize = if *has_enable {
                    2
                } else {
                    1
                };
                let picked: Result<usize, Bit> = decide(
                    enable,
                    *disabled_zero,
                    &inputs[0],
                    *select_bits,
                );
                let active: Signal = fit(&inputs[data], *bits);
                let idle: Bit = if *tristate {
                    Bit::Unknown
                } else {
                    Bit::Zero
                };
                spread_out(picked, n, *bits, &active, idle)
            },
            Gate::Decoder { select_bits, has_enable, disabled_zero, tristate } => {
                let n: usize = line_count(*select_bits);
                let enable: Bit = if *has_enable {
                    bit_at(&inputs[1], 0)
                } else {
                    Bit::One
                };
                let picked: Result<usize, Bit> = decide(
                    enable,
                    *disabled_zero,
                    &inputs[0],
                    *select_bits,
                );
                let active: Signal = vec![Bit::One];
                assert(active@ =~= seq![Bit::One]);
                let idle: Bit = if *tristate {
                    Bit::Unknown
                } else {
                    Bit::Zero
                };
                spread_out(picked, n, 1, &active, idle)
            },
            Gate::PriorityEncoder { select_bits, disabled_zero } => {
                let n: usize = line_count(*select_bits);
                let out: Vec<Signal> = if bit_at(&inputs[n], 0) == Bit::Zero {
                    let b: Bit = if *disabled_zero {
                        Bit::Zero
                    } else {
                        Bit::Unknown
                    };
                    vec![fill(b, *select_bits as usize), vec![Bit::Zero], vec![Bit::Zero]]
                } else {
                    match find_highest(inputs, n) {
                        Some(k) => {
                            proof {
                                power2::lemma2_to64();
                                if *select_bits < 32 {
                                    power2::lemma_pow2_strictly_increases(*select_bits as nat, 32);
                                }
                            }
                            vec![
                                u32_to_signal(k as u32, *select_bits),
                                vec![Bit::Zero],
                                vec![Bit::One],
                            ]
                        },
                        None => vec![
                            fill(Bit::Unknown, *select_bits as usize),
                            vec![Bit::One],
                            vec![Bit::Zero],
                        ],
                    }
                };
                assert(plugin_abi::signals(out@) =~~= outputs(self@, ins));
                out
            },
            _ => Vec::new(),
        }
    }
}

/// A demultiplexer undoes a multiplexer: with the same defined select word and both enabled,
/// the data line that the multiplexer picks comes out on the output of the same number, and
/// every other output idles.
pub proof fn demux_undoes_mux(
    bits: u8,
    select_bits: u8,
    disabled_zero: bool,
    tristate: bool,
    ins: Seq<Seq<Bit>>,
    k: nat,
)
    requires
        select_bits < usize::BITS,
        signal::word(ins[power2::pow2(select_bits as nat) as int], select_bits as nat) == Some(k),
    ensures
        ({
            let n = power2::pow2(select_bits as nat);
            let select = ins[n as int];
            let routed = outputs(
                GateView::Mux { bits, select_bits, has_enable: false, disabled_zero },
                ins,
            );
            let back = outputs(
                GateView::Demux { bits, select_bits, has_enable: false, disabled_zero, tristate },
                seq![select, routed[0]],
            );
            &&& k < n && back.len() == n
            &&& back[k as int] == signal::fitted(ins[k as int], bits as nat)
            &&& forall|i: int|
                0 <= i < n && i != k ==> #[trigger] back[i] == signal::filled(
                    bits as nat,
                    idle_bit(tristate),
                )
        }),
{
    let n = power2::pow2(select_bits as nat);
    let select = ins[n as int];
    signal::value_bound(select, select_bits as nat);
    assert(!some_bit(select, select_bits as nat, Bit::Error));
    assert(!some_bit(select, select_bits as nat, Bit::Unknown));
    let routed = outputs(
        GateView::Mux { bits, select_bits, has_enable: false, disabled_zero },
        ins,
    );
    assert(signal::fitted(routed[0], bits as nat) =~= signal::fitted(ins[k as int], bits as nat));
}

/// The priority encoder's index is the highest asserted line: that line reads `One`, and no
/// higher line does.
pub proof fn highest_line_is_highest(ins: Seq<Seq<Bit>>, n: nat)
    ensures
        match highest_line(ins, n) {
            Some(k) => k < n && signal::bit_of(ins[k as int], 0) == Bit::One && forall|j: int|
                k < j < n ==> signal::bit_of(#[trigger] ins[j], 0) != Bit::One,
            None => forall|j: int| 0 <= j < n ==> signal::bit_of(#[trigger] ins[j], 0) != Bit::One,
        },
    decreases n,
{
    if n > 0 {
        highest_line_is_highest(ins, (n - 1) as nat);
    }
}

} // verus!
