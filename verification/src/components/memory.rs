//! Clocked and stateful components: Clock, Register, Rom and Ram.
use vstd::prelude::*;
use vstd::arithmetic::{div_mod, power2};
use vstd::string::StringExecFns;
use super::signal::{bit_at, fill, signal_to_u32_if_defined, u32_to_signal, zeros};
use super::state::{
    bit_to_byte, byte_to_bit, push_bits, push_u32, push_u64, push_words, read_bits, read_first_u64,
    read_u32, read_words,
};
use super::{signal, state, Gate, GateView};
use crate::plugin_abi;
use crate::plugin_abi::{
    ActionError, ActionErrorView, Bit, ReadoutError, Signal, Value, ValueView,
};
use crate::text;

verus! {

/// How a Ram's data pins are arranged: one shared line written on a clock edge, one shared
/// line written at once, or separate lines for writing.
#[derive(Debug, Clone, Copy, PartialEq, Eq, Structural)]
pub enum RamBus {
    Combined,
    Asynch,
    Separate,
}

/// When a clock pin takes effect.
#[derive(Debug, Clone, Copy, PartialEq, Eq, Structural)]
pub enum Trigger {
    Rising,
    Falling,
    High,
    Low,
}

/// Whether a clock pin that went from `before` to `now` takes effect. Undefined readings are
/// neither low nor high.
pub open spec fn fires(trigger: Trigger, before: Bit, now: Bit) -> bool {
    match trigger {
        Trigger::Rising => before == Bit::Zero && now == Bit::One,
        Trigger::Falling => before == Bit::One && now == Bit::Zero,
        Trigger::High => now == Bit::One,
        Trigger::Low => now == Bit::Zero,
    }
}

impl Trigger {
    pub(crate) fn fired(self, before: Bit, now: Bit) -> (r: bool)
        ensures
            r == fires(self, before, now),
    {
        match self {
            Trigger::Rising => before == Bit::Zero && now == Bit::One,
            Trigger::Falling => before == Bit::One && now == Bit::Zero,
            Trigger::High => now == Bit::One,
            Trigger::Low => now == Bit::Zero,
        }
    }
}

/// The level of a clock at a tick: low for the first `low` ticks of each period, inverted
/// after an odd number of manual toggles.
pub open spec fn clock_level(high: u64, low: u64, clicks: u64, tick: u64) -> Bit {
    let low_phase = (tick as int) % (high + low) < low;
    if low_phase != (clicks % 2 == 1) {
        Bit::Zero
    } else {
        Bit::One
    }
}

/// A gate after the tick counter reached `tick`: only clocks react.
pub open spec fn ticked(g: GateView, tick: u64) -> GateView {
    match g {
        GateView::Clock { high, low, clicks, sending } => GateView::Clock {
            high,
            low,
            clicks,
            sending: clock_level(high, low, clicks, tick),
        },
        _ => g,
    }
}

/// A clock needs a period to follow the ticks; every other gate is left alone.
pub open spec fn can_tick(g: GateView) -> bool {
    g matches GateView::Clock { high, low, .. } ==> 0 < high + low <= u64::MAX
}

/// All cells zero.
pub open spec fn blank(n: nat) -> Seq<u32> {
    Seq::new(n, |i: int| 0u32)
}

/// What a memory cell takes from a data pin: its number, or all ones where it is undefined.
pub open spec fn stored_word(data: Seq<Bit>, data_bits: nat) -> u32 {
    match signal::word(data, data_bits) {
        Some(v) => v as u32,
        None => (power2::pow2(data_bits) - 1) as u32,
    }
}

/// A Ram's cells and its output after an evaluation. Clearing comes before the chip select; an
/// undefined address holds the output.
pub open spec fn ram_evaluated(
    addr_bits: nat,
    data_bits: nat,
    bus: RamBus,
    contents: Seq<u32>,
    last_clock: Bit,
    held_data: Seq<Bit>,
    ins: Seq<Seq<Bit>>,
) -> (Seq<u32>, Seq<Bit>) {
    let oe = signal::bit_of(ins[2], 0);
    let clear = signal::bit_of(ins[3], 0) == Bit::One;
    let triggered = bus == RamBus::Asynch || fires(
        Trigger::Rising,
        last_clock,
        signal::bit_of(ins[4], 0),
    );
    let cells = if clear {
        blank(contents.len())
    } else {
        contents
    };
    if signal::bit_of(ins[1], 0) == Bit::Zero {
        (cells, signal::filled(data_bits, Bit::Unknown))
    } else {
        match signal::word(ins[0], addr_bits) {
            None => (cells, held_data),
            Some(addr) => {
                let writes = !clear && triggered && (if bus == RamBus::Separate {
                    signal::bit_of(ins[5], 0) != Bit::Zero
                } else {
                    oe == Bit::Zero
                });
                let data = if bus == RamBus::Separate {
                    ins[6]
                } else {
                    ins[5]
                };
                let after = if writes {
                    cells.update(addr as int, stored_word(data, data_bits))
                } else {
                    cells
                };
                (
                    after,
                    if oe != Bit::Zero {
                        signal::bits_of(after[addr as int] as int, data_bits)
                    } else {
                        signal::filled(data_bits, Bit::Unknown)
                    },
                )
            },
        }
    }
}

/// What a register holds after an evaluation: clearing wins, then a triggered and not disabled
/// latch of a fully defined word.
pub open spec fn latched(
    bits: nat,
    trigger: Trigger,
    value: u32,
    last_clock: Bit,
    ins: Seq<Seq<Bit>>,
) -> u32 {
    if signal::bit_of(ins[2], 0) == Bit::One {
        0
    } else if fires(trigger, last_clock, signal::bit_of(ins[1], 0)) && signal::bit_of(ins[3], 0)
        != Bit::Zero && signal::defined(ins[0], bits) {
        signal::value_of(ins[0], bits) as u32
    } else {
        value
    }
}

/// What a Rom drives after an evaluation: nothing while deselected, the addressed cell, or
/// what it drove before where the address is undefined.
pub open spec fn rom_output(
    addr_bits: nat,
    data_bits: nat,
    contents: Seq<u32>,
    held_data: Seq<Bit>,
    ins: Seq<Seq<Bit>>,
) -> Seq<Bit> {
    if signal::bit_of(ins[1], 0) == Bit::Zero {
        signal::filled(data_bits, Bit::Unknown)
    } else {
        match signal::word(ins[0], addr_bits) {
            Some(addr) => signal::bits_of(contents[addr as int] as int, data_bits),
            None => held_data,
        }
    }
}

/// A memory gate and its output pins after an evaluation.
pub open spec fn evaluated(g: GateView, ins: Seq<Seq<Bit>>) -> (GateView, Seq<Seq<Bit>>) {
    match g {
        GateView::Clock { sending, .. } => (g, seq![seq![sending]]),
        GateView::Register { bits, trigger, value, last_clock } => {
            let v = latched(bits as nat, trigger, value, last_clock, ins);
            (
                GateView::Register {
                    bits,
                    trigger,
                    value: v,
                    last_clock: signal::bit_of(ins[1], 0),
                },
                seq![signal::bits_of(v as int, bits as nat)],
            )
        },
        GateView::Rom { addr_bits, data_bits, contents, held_data } => {
            let out = rom_output(addr_bits as nat, data_bits as nat, contents, held_data, ins);
            (GateView::Rom { addr_bits, data_bits, contents, held_data: out }, seq![out])
        },
        GateView::Ram { addr_bits, data_bits, bus, contents, last_clock, held_data } => {
            let (cells, out) = ram_evaluated(
                addr_bits as nat,
                data_bits as nat,
                bus,
                contents,
                last_clock,
                held_data,
                ins,
            );
            (
                GateView::Ram {
                    addr_bits,
                    data_bits,
                    bus,
                    contents: cells,
                    last_clock: signal::bit_of(ins[4], 0),
                    held_data: out,
                },
                seq![out],
            )
        },
        _ => (g, Seq::empty()),
    }
}

/// A memory gate after a reset. A Rom's cells are configuration, a Ram's are state.
pub open spec fn reset(g: GateView) -> GateView {
    match g {
        GateView::Clock { high, low, .. } => GateView::Clock {
            high,
            low,
            clicks: 0,
            sending: Bit::Zero,
        },
        GateView::Register { bits, trigger, .. } => GateView::Register {
            bits,
            trigger,
            value: 0,
            last_clock: Bit::Zero,
        },
        GateView::Rom { addr_bits, data_bits, contents, .. } => GateView::Rom {
            addr_bits,
            data_bits,
            contents,
            held_data: signal::filled(data_bits as nat, Bit::Zero),
        },
        GateView::Ram { addr_bits, data_bits, bus, contents, .. } => GateView::Ram {
            addr_bits,
            data_bits,
            bus,
            contents: blank(contents.len()),
            last_clock: Bit::Zero,
            held_data: signal::filled(data_bits as nat, Bit::Zero),
        },
        _ => g,
    }
}

/// The saved state of a memory gate.
pub open spec fn saved(g: GateView) -> Seq<u8> {
    match g {
        GateView::Clock { clicks, sending, .. } => state::le64(clicks as nat).push(
            state::byte_of(sending),
        ),
        GateView::Register { value, last_clock, .. } => state::le32(value as nat).push(
            state::byte_of(last_clock),
        ),
        GateView::Rom { contents, held_data, .. } => state::words_bytes(contents) + state::bytes_of(
            held_data,
        ),
        GateView::Ram { contents, held_data, last_clock, .. } => (state::words_bytes(contents)
            + state::bytes_of(held_data)).push(state::byte_of(last_clock)),
        _ => Seq::empty(),
    }
}

/// A memory gate after its state is restored from bytes.
pub open spec fn restored(g: GateView, s: Seq<u8>) -> GateView {
    match g {
        GateView::Clock { high, low, .. } => GateView::Clock {
            high,
            low,
            clicks: state::u64_at(s, 0),
            sending: state::bit_at_byte(s, 8, Bit::Zero),
        },
        GateView::Register { bits, trigger, .. } => GateView::Register {
            bits,
            trigger,
            value: state::u32_at(s, 0),
            last_clock: state::bit_at_byte(s, 4, Bit::Zero),
        },
        GateView::Rom { addr_bits, data_bits, contents, .. } => GateView::Rom {
            addr_bits,
            data_bits,
            contents: state::words_at(s, contents.len()),
            held_data: state::bits_at(s, (4 * contents.len()) as int, data_bits as nat, Bit::Zero),
        },
        GateView::Ram { addr_bits, data_bits, bus, contents, .. } => GateView::Ram {
            addr_bits,
            data_bits,
            bus,
            contents: state::words_at(s, contents.len()),
            last_clock: state::bit_at_byte(s, 4 * contents.len() + data_bits, Bit::Zero),
            held_data: state::bits_at(s, (4 * contents.len()) as int, data_bits as nat, Bit::Zero),
        },
        _ => g,
    }
}

pub open spec fn action_names(g: GateView) -> Seq<Seq<char>> {
    match g {
        GateView::Clock { .. } => seq!["toggle"@],
        GateView::Register { .. } => seq!["set"@],
        _ => Seq::empty(),
    }
}

/// An action on a memory gate: what becomes of it, and the outcome. Toggling a clock flips it at
/// once and shifts its phase for good; setting a register bypasses clock and enable.
pub open spec fn invoked(g: GateView, name: Seq<char>, arg: Option<ValueView>) -> (
    GateView,
    Result<(), ActionErrorView>,
) {
    match g {
        GateView::Clock { high, low, clicks, sending } => if name == "toggle"@ {
            (
                GateView::Clock {
                    high,
                    low,
                    clicks: (clicks + 1) as u64,
                    sending: plugin_abi::negated(sending),
                },
                Ok(()),
            )
        } else {
            (g, Err(ActionErrorView::UnknownAction(name)))
        },
        GateView::Register { bits, trigger, last_clock, .. } => if name == "set"@ {
            match arg {
                Some(ValueView::Int(i)) => (
                    GateView::Register {
                        bits,
                        trigger,
                        value: (i as int % power2::pow2(bits as nat) as int) as u32,
                        last_clock,
                    },
                    Ok(()),
                ),
                _ => (
                    g,
                    Err(
                        ActionErrorView::InvalidArg {
                            action: "set"@,
                            reason: "expected Int, got "@ + plugin_abi::arg_text(arg),
                        },
                    ),
                ),
            }
        } else {
            (g, Err(ActionErrorView::UnknownAction(name)))
        },
        _ => (g, Err(ActionErrorView::UnknownAction(name))),
    }
}

/// What a readout of a memory gate gives.
pub open spec fn readout(g: GateView, name: Seq<char>) -> Result<ValueView, Seq<char>> {
    match g {
        GateView::Clock { sending, .. } => if name == "get"@ {
            Ok(ValueView::Bits(seq![sending]))
        } else {
            Err(name)
        },
        GateView::Register { bits, value, .. } => if name == "get"@ {
            Ok(ValueView::Bits(signal::bits_of(value as int, bits as nat)))
        } else {
            Err(name)
        },
        _ => Err(name),
    }
}

/// The configurations that a memory gate can work with.
pub open spec fn valid(g: GateView) -> bool {
    match g {
        GateView::Clock { high, low, .. } => 0 < high + low <= u64::MAX,
        GateView::Register { bits, .. } => bits <= 32,
        GateView::Rom { addr_bits, data_bits, contents, .. } => addr_bits <= 32 && data_bits <= 32
            && contents.len() >= power2::pow2(addr_bits as nat),
        GateView::Ram { addr_bits, data_bits, contents, .. } => addr_bits <= 32 && data_bits <= 32
            && contents.len() >= power2::pow2(addr_bits as nat),
        _ => true,
    }
}

/// The actions that a memory gate can perform or refuse now.
pub open spec fn can_invoke(g: GateView, name: Seq<char>) -> bool {
    match g {
        GateView::Clock { clicks, .. } => name == "toggle"@ ==> clicks < u64::MAX,
        GateView::Register { bits, .. } => name == "set"@ ==> bits >= 1,
        _ => true,
    }
}

/// The input lists that a memory gate can be evaluated on.
pub open spec fn accepts(g: GateView, ins: Seq<Seq<Bit>>) -> bool {
    ins.len() >= input_count(g)
}

pub open spec fn input_count(g: GateView) -> nat {
    match g {
        GateView::Register { .. } => 4,
        GateView::Rom { .. } => 2,
        GateView::Ram { bus, .. } => if bus == RamBus::Separate {
            7
        } else {
            6
        },
        _ => 0,
    }
}

pub open spec fn input_width(g: GateView, pin: int) -> u8 {
    match g {
        GateView::Register { bits, .. } => if pin == 0 {
            bits
        } else {
            1
        },
        GateView::Rom { addr_bits, .. } => if pin == 0 {
            addr_bits
        } else {
            1
        },
        GateView::Ram { addr_bits, data_bits, bus, .. } => if pin == 0 {
            addr_bits
        } else if pin <= 4 || (pin == 5 && bus == RamBus::Separate) {
            1
        } else {
            data_bits
        },
        _ => 0,
    }
}

pub open spec fn output_width(g: GateView) -> u8 {
    match g {
        GateView::Clock { .. } => 1,
        GateView::Register { bits, .. } => bits,
        GateView::Rom { data_bits, .. } => data_bits,
        GateView::Ram { data_bits, .. } => data_bits,
        _ => 0,
    }
}

/// Ones in the low `bits` digits.
fn mask32(bits: u8) -> (r: u32)
    requires
        bits <= 32,
    ensures
        r == power2::pow2(bits as nat) - 1,
{
    proof {
        power2::lemma2_to64();
    }
    if bits == 32 {
        u32::MAX
    } else {
        proof {
            vstd::bits::lemma_u32_pow2_no_overflow(bits as nat);
            vstd::bits::lemma_u32_shl_is_mul(1u32, bits as u32);
        }
        (1u32 << (bits as u32)) - 1
    }
}

/// Zeroes every cell.
fn clear_cells(cells: &mut Vec<u32>)
    ensures
        final(cells)@ == blank(old(cells)@.len()),
{
    let n: usize = cells.len();
    for i in 0..n
        invariant
            cells@.len() == n,
            forall|j: int| 0 <= j < i ==> cells@[j] == 0,
    {
        cells[i] = 0;
    }
    assert(cells@ =~= blank(n as nat));
}

/// The number that an undefined data pin leaves in a cell is all ones.
fn word_to_store(data: &Signal, data_bits: u8) -> (r: u32)
    requires
        data_bits <= 32,
    ensures
        r == stored_word(data@, data_bits as nat),
{
    match signal_to_u32_if_defined(data, data_bits) {
        Some(v) => v,
        None => mask32(data_bits),
    }
}

/// An integer reduced to the low `bits` digits of its two's complement.
pub(crate) fn low_digits(i: i64, bits: u8) -> (r: u32)
    requires
        1 <= bits <= 32,
    ensures
        r == i as int % power2::pow2(bits as nat) as int,
{
    proof {
        power2::lemma2_to64();
        vstd::bits::lemma_u64_pow2_no_overflow(bits as nat);
        vstd::bits::lemma_u64_shl_is_mul(1u64, bits as u64);
        if bits < 32 {
            power2::lemma_pow2_strictly_increases(bits as nat, 32);
        }
        power2::lemma_pow2_pos(bits as nat);
    }
    let p: u64 = 1u64 << (bits as u64);
    if i >= 0 {
        ((i as u64) % p) as u32
    } else {
        let m: u64 = (-(i as i128)) as u64;
        let rest: u64 = m % p;
        proof {
            // i == -(p * q + rest)
            let q = m as int / p as int;
            div_mod::lemma_fundamental_div_mod(m as int, p as int);
            if rest == 0 {
                assert(i == (-q) * p) by (nonlinear_arith)
                    requires
                        i == -(p * q),
                ;
                div_mod::lemma_fundamental_div_mod_converse(i as int, p as int, -q, 0);
            } else {
                assert(i == (-q - 1) * p + (p - rest)) by (nonlinear_arith)
                    requires
                        i == -(p * q + rest),
                ;
                div_mod::lemma_fundamental_div_mod_converse(
                    i as int,
                    p as int,
                    -q - 1,
                    p - rest,
                );
            }
        }
        if rest == 0 {
            0
        } else {
            (p - rest) as u32
        }
    }
}

impl Gate {
    pub(crate) fn init_memory(&mut self)
        requires
            old(self)@.category() is Memory,
        ensures
            final(self)@ == reset(old(self)@),
    {
        match self {
            Gate::Clock { clicks, sending, .. } => {
                *clicks = 0;
                *sending = Bit::Zero;
            },
            Gate::Register { value, last_clock, .. } => {
                *value = 0;
                *last_clock = Bit::Zero;
            },
            Gate::Rom { data_bits, held_data, .. } => {
                *held_data = zeros(*data_bits);
            },
            Gate::Ram { data_bits, contents, last_clock, held_data, .. } => {
                clear_cells(contents);
                *last_clock = Bit::Zero;
                *held_data = zeros(*data_bits);
            },
            _ => {},
        }
    }

    pub(crate) fn input_count_memory(&self) -> (r: usize)
        requires
            self@.category() is Memory,
        ensures
            r == input_count(self@),
    {
        match self {
            Gate::Register { .. } => 4,
            Gate::Rom { .. } => 2,
            Gate::Ram { bus, .. } => if *bus == RamBus::Separate {
                7
            } else {
                6
            },
            _ => 0,
        }
    }

    pub(crate) fn input_width_memory(&self, pin: usize) -> (r: u8)
        ensures
            r == input_width(self@, pin as int),
    {
        match self {
            Gate::Register { bits, .. } => if pin == 0 {
                *bits
            } else {
                1
            },
            Gate::Rom { addr_bits, .. } => if pin == 0 {
                *addr_bits
            } else {
                1
            },
            Gate::Ram { addr_bits, data_bits, bus, .. } => if pin == 0 {
                *addr_bits
            } else if pin <= 4 || (pin == 5 && *bus == RamBus::Separate) {
                1
            } else {
                *data_bits
            },
            _ => 0,
        }
    }

    pub(crate) fn output_width_memory(&self) -> (r: u8)
        ensures
            r == output_width(self@),
    {
        match self {
            Gate::Clock { .. } => 1,
            Gate::Register { bits, .. } => *bits,
            Gate::Rom { data_bits, .. } => *data_bits,
            Gate::Ram { data_bits, .. } => *data_bits,
            _ => 0,
        }
    }

    pub(crate) fn eval_memory(&mut self, inputs: &[Signal]) -> (out: Vec<Signal>)
        requires
            old(self)@.category() is Memory,
            valid(old(self)@),
            accepts(old(self)@, plugin_abi::signals(inputs@)),
        ensures
            (final(self)@, plugin_abi::signals(out@)) == evaluated(
                old(self)@,
                plugin_abi::signals(inputs@),
            ),
    {
        let ghost ins = plugin_abi::signals(inputs@);
        let ghost before = self@;
        let pin: Signal = match self {
            Gate::Clock { sending, .. } => vec![*sending],
            Gate::Register { bits, trigger, value, last_clock } => {
                let ck: Bit = bit_at(&inputs[1], 0);
                let clr: Bit = bit_at(&inputs[2], 0);
                let en: Bit = bit_at(&inputs[3], 0);
                let triggered: bool = trigger.fired(*last_clock, ck);
                *last_clock = ck;
                if clr == Bit::One {
                    *value = 0;
                } else if triggered && en != Bit::Zero {
                    if let Some(v) = signal_to_u32_if_defined(&inputs[0], *bits) {
                        *value = v;
                    }
                }
                u32_to_signal(*value, *bits)
            },
            Gate::Rom { addr_bits, data_bits, contents, held_data } => {
                if bit_at(&inputs[1], 0) == Bit::Zero {
                    *held_data = fill(Bit::Unknown, *data_bits as usize);
                } else if let Some(addr) = signal_to_u32_if_defined(&inputs[0], *addr_bits) {
                    proof {
                        signal::value_bound(ins[0], *addr_bits as nat);
                    }
                    *held_data = u32_to_signal(contents[addr as usize], *data_bits);
                }
                held_data.clone()
            },
            Gate::Ram { addr_bits, data_bits, bus, contents, last_clock, held_data } => {
                let oe: Bit = bit_at(&inputs[2], 0);
                let clear: bool = bit_at(&inputs[3], 0) == Bit::One;
                let ck: Bit = bit_at(&inputs[4], 0);
                let separate: bool = *bus == RamBus::Separate;
                let triggered: bool = *bus == RamBus::Asynch || Trigger::Rising.fired(
                    *last_clock,
                    ck,
                );
                *last_clock = ck;
                if clear {
                    clear_cells(contents);
                }
                if bit_at(&inputs[1], 0) == Bit::Zero {
                    *held_data = fill(Bit::Unknown, *data_bits as usize);
                } else if let Some(addr) = signal_to_u32_if_defined(&inputs[0], *addr_bits) {
                    proof {
                        signal::value_bound(ins[0], *addr_bits as nat);
                    }
                    let at: usize = addr as usize;
                    if !clear && triggered {
                        let writes: bool = if separate {
                            bit_at(&inputs[5], 0) != Bit::Zero
                        } else {
                            oe == Bit::Zero
                        };
                        if writes {
                            let cell: u32 = if separate {
                                word_to_store(&inputs[6], *data_bits)
                            } else {
                                word_to_store(&inputs[5], *data_bits)
                            };
                            contents[at] = cell;
                        }
                    }
                    *held_data = if oe != Bit::Zero {
                        u32_to_signal(contents[at], *data_bits)
                    } else {
                        fill(Bit::Unknown, *data_bits as usize)
                    };
                }
                held_data.clone()
            },
            _ => Vec::new(),
        };
        let ghost after = evaluated(before, ins);
        assert(pin@ =~= after.1[0]);
        let out: Vec<Signal> = vec![pin];
        assert(plugin_abi::signals(out@) =~= after.1);
        assert(self@ =~= after.0);
        out
    }

    pub(crate) fn serialize_memory(&self) -> (out: Vec<u8>)
        requires
            self@.category() is Memory,
        ensures
            out@ == saved(self@),
    {
        let mut out: Vec<u8> = Vec::new();
        match self {
            Gate::Clock { clicks, sending, .. } => {
                push_u64(&mut out, *clicks);
                out.push(bit_to_byte(*sending));
            },
            Gate::Register { value, last_clock, .. } => {
                push_u32(&mut out, *value);
                out.push(bit_to_byte(*last_clock));
            },
            Gate::Rom { contents, held_data, .. } => {
                push_words(&mut out, contents);
                push_bits(&mut out, held_data);
            },
            Gate::Ram { contents, held_data, last_clock, .. } => {
                push_words(&mut out, contents);
                push_bits(&mut out, held_data);
                out.push(bit_to_byte(*last_clock));
            },
            _ => {},
        }
        assert(out@ =~= saved(self@));
        out
    }

    pub(crate) fn deserialize_memory(&mut self, state: &[u8])
        requires
            old(self)@.category() is Memory,
        ensures
            final(self)@ == restored(old(self)@, state@),
    {
        let ghost before = self@;
        match self {
            Gate::Clock { clicks, sending, .. } => {
                *clicks = read_first_u64(state);
                *sending = if state.len() > 8 {
                    byte_to_bit(state[8])
                } else {
                    Bit::Zero
                };
            },
            Gate::Register { value, last_clock, .. } => {
                *value = read_u32(state, 0);
                *last_clock = if state.len() > 4 {
                    byte_to_bit(state[4])
                } else {
                    Bit::Zero
                };
            },
            Gate::Rom { data_bits, contents, held_data, .. } => {
                let n: usize = contents.len();
                *contents = read_words(state, n);
                let off: usize = after_words(state, n);
                *held_data = read_bits(state, off, *data_bits as usize, Bit::Zero);
            },
            Gate::Ram { data_bits, contents, last_clock, held_data, .. } => {
                let n: usize = contents.len();
                *contents = read_words(state, n);
                let off: usize = after_words(state, n);
                *held_data = read_bits(state, off, *data_bits as usize, Bit::Zero);
                *last_clock = if state.len() - off > *data_bits as usize {
                    byte_to_bit(state[off + *data_bits as usize])
                } else {
                    Bit::Zero
                };
            },
            _ => {},
        }
        assert(self@ =~~= restored(before, state@));
    }

    pub(crate) fn actions_memory(&self) -> (r: Vec<&'static str>)
        requires
            self@.category() is Memory,
        ensures
            plugin_abi::names(r@) == action_names(self@),
    {
        let r: Vec<&'static str> = match self {
            Gate::Clock { .. } => vec!["toggle"],
            Gate::Register { .. } => vec!["set"],
            _ => Vec::new(),
        };
        assert(plugin_abi::names(r@) =~= action_names(self@));
        r
    }

    pub(crate) fn invoke_memory(&mut self, name: &str, arg: Option<Value>) -> (r: Result<
        (),
        ActionError,
    >)
        requires
            old(self)@.category() is Memory,
            valid(old(self)@),
            can_invoke(old(self)@, name@),
        ensures
            (final(self)@, plugin_abi::action_outcome(r)) == invoked(
                old(self)@,
                name@,
                plugin_abi::arg_view(arg),
            ),
    {
        match self {
            Gate::Clock { clicks, sending, .. } => {
                if text::same(name, "toggle") {
                    *sending = sending.not();
                    *clicks = *clicks + 1;
                    Ok(())
                } else {
                    Err(ActionError::UnknownAction(name.to_owned()))
                }
            },
            Gate::Register { bits, value, .. } => {
                if text::same(name, "set") {
                    match arg {
                        Some(Value::Int(i)) => {
                            *value = low_digits(i, *bits);
                            Ok(())
                        },
                        arg => {
                            let mut reason: String = "expected Int, got ".to_owned();
                            reason.append(plugin_abi::render_arg(&arg).as_str());
                            Err(ActionError::InvalidArg { action: "set".to_owned(), reason })
                        },
                    }
                } else {
                    Err(ActionError::UnknownAction(name.to_owned()))
                }
            },
            _ => Err(ActionError::UnknownAction(name.to_owned())),
        }
    }

    pub(crate) fn read_memory(&self, name: &str) -> (r: Result<Value, ReadoutError>)
        requires
            self@.category() is Memory,
            valid(self@),
        ensures
            plugin_abi::readout_outcome(r) == readout(self@, name@),
    {
        if text::same(name, "get") {
            match self {
                Gate::Clock { sending, .. } => {
                    let bits: Signal = vec![*sending];
                    assert(bits@ =~= seq![*sending]);
                    return Ok(Value::Bits(bits));
                },
                Gate::Register { bits, value, .. } => {
                    return Ok(Value::Bits(u32_to_signal(*value, *bits)));
                },
                _ => {},
            }
        }
        Err(ReadoutError::UnknownReadout(name.to_owned()))
    }

    pub(crate) fn tick_memory(&mut self, global_tick: u64) -> (changed: bool)
        requires
            can_tick(old(self)@),
        ensures
            final(self)@ == ticked(old(self)@, global_tick),
            changed == (final(self)@ != old(self)@),
    {
        match self {
            Gate::Clock { high, low, clicks, sending } => {
                let period: u64 = *high + *low;
                let low_phase: bool = global_tick % period < *low;
                let desired: Bit = if low_phase != (*clicks % 2 == 1) {
                    Bit::Zero
                } else {
                    Bit::One
                };
                if *sending == desired {
                    false
                } else {
                    *sending = desired;
                    true
                }
            },
            _ => false,
        }
    }
}

/// Where the bytes after `n` four-byte numbers start, cut off at the end.
fn after_words(state: &[u8], n: usize) -> (off: usize)
    ensures
        off <= state@.len(),
        4 * n <= state@.len() ==> off == 4 * n,
        4 * n > state@.len() ==> off == state@.len(),
{
    if n <= state.len() / 4 {
        4 * n
    } else {
        state.len()
    }
}

/// Ticking is idempotent: reaching the same tick again changes nothing.
pub proof fn tick_is_idempotent(g: GateView, tick: u64)
    ensures
        ticked(ticked(g, tick), tick) == ticked(g, tick),
{
}

/// A clock repeats itself after one period.
pub proof fn clock_is_periodic(high: u64, low: u64, clicks: u64, tick: u64)
    requires
        0 < high + low <= u64::MAX,
        tick + high + low <= u64::MAX,
    ensures
        clock_level(high, low, clicks, (tick + high + low) as u64) == clock_level(
            high,
            low,
            clicks,
            tick,
        ),
{
    div_mod::lemma_mod_add_multiples_vanish(tick as int, high + low);
}

/// A manual toggle flips the clock at once, and inverts its level at every later tick.
pub proof fn toggle_shifts_the_phase(g: GateView, tick: u64, high: u64, low: u64, clicks: u64)
    requires
        clicks < u64::MAX,
        g matches GateView::Clock { sending, .. } && g == (GateView::Clock {
            high,
            low,
            clicks,
            sending,
        }) && plugin_abi::is_level(sending),
    ensures
        ({
            let after = invoked(g, "toggle"@, None).0;
            &&& invoked(g, "toggle"@, None).1 is Ok
            &&& evaluated(after, Seq::empty()).1[0][0] == plugin_abi::negated(
                evaluated(g, Seq::empty()).1[0][0],
            )
            &&& evaluated(ticked(after, tick), Seq::empty()).1[0][0] == plugin_abi::negated(
                evaluated(ticked(g, tick), Seq::empty()).1[0][0],
            )
        }),
{
}

/// A register's output is always fully defined.
pub proof fn register_output_is_defined(g: GateView, ins: Seq<Seq<Bit>>)
    requires
        g is Register,
    ensures
        signal::defined(evaluated(g, ins).1[0], output_width(g) as nat),
        evaluated(g, ins).1[0].len() == output_width(g),
{
    let out = evaluated(g, ins).1[0];
    assert forall|i: int| 0 <= i < output_width(g) implies plugin_abi::is_level(
        #[trigger] signal::bit_of(out, i),
    ) by {
    }
}

/// Without a clock edge or a clear, an edge-triggered register holds its value.
pub proof fn register_holds_between_edges(
    bits: u8,
    trigger: Trigger,
    value: u32,
    last_clock: Bit,
    ins: Seq<Seq<Bit>>,
)
    requires
        signal::bit_of(ins[2], 0) != Bit::One,
        !fires(trigger, last_clock, signal::bit_of(ins[1], 0)),
    ensures
        evaluated(GateView::Register { bits, trigger, value, last_clock }, ins).0
            == (GateView::Register {
            bits,
            trigger,
            value,
            last_clock: signal::bit_of(ins[1], 0),
        }),
{
}

/// What a latching evaluation stores in a register is what it and every later holding
/// evaluation output.
pub proof fn register_outputs_what_it_latched(
    bits: u8,
    trigger: Trigger,
    value: u32,
    last_clock: Bit,
    ins: Seq<Seq<Bit>>,
)
    requires
        bits <= 32,
        signal::bit_of(ins[2], 0) != Bit::One,
        fires(trigger, last_clock, signal::bit_of(ins[1], 0)),
        signal::bit_of(ins[3], 0) != Bit::Zero,
        signal::defined(ins[0], bits as nat),
    ensures
        evaluated(GateView::Register { bits, trigger, value, last_clock }, ins).1
            == seq![signal::fitted(ins[0], bits as nat)],
{
    signal::value_bound(ins[0], bits as nat);
    power2::lemma2_to64();
    if bits < 32 {
        power2::lemma_pow2_strictly_increases(bits as nat, 32);
    }
    signal::word_round_trip(ins[0], bits as nat);
}

/// A clear wins: the register holds and outputs zero, whatever the clock and the data do.
pub proof fn clear_wins(
    bits: u8,
    trigger: Trigger,
    value: u32,
    last_clock: Bit,
    ins: Seq<Seq<Bit>>,
)
    requires
        signal::bit_of(ins[2], 0) == Bit::One,
    ensures
        ({
            let g = GateView::Register { bits, trigger, value, last_clock };
            &&& evaluated(g, ins).0 matches GateView::Register { value: after, .. } && after == 0
            &&& evaluated(g, ins).1 == seq![signal::filled(bits as nat, Bit::Zero)]
        }),
{
    let g = GateView::Register { bits, trigger, value, last_clock };
    assert forall|i: int| 0 <= i < bits implies signal::bits_of(0, bits as nat)[i]
        == Bit::Zero by {
        power2::lemma_pow2_pos(i as nat);
        div_mod::lemma_div_basics(power2::pow2(i as nat) as int);
    }
    assert(evaluated(g, ins).1[0] =~= signal::filled(bits as nat, Bit::Zero));
}

/// A register never latches a word that is only partly known: without a clear, it keeps its
/// value.
pub proof fn undefined_words_are_ignored(
    bits: u8,
    trigger: Trigger,
    value: u32,
    last_clock: Bit,
    ins: Seq<Seq<Bit>>,
)
    requires
        signal::bit_of(ins[2], 0) != Bit::One,
        !signal::defined(ins[0], bits as nat),
    ensures
        evaluated(GateView::Register { bits, trigger, value, last_clock }, ins).0 matches GateView::Register {
            value: after,
            ..
        } && after == value,
{
}

/// Whether an evaluation writes to a Ram, given its cells' clock.
pub open spec fn ram_writes(bus: RamBus, last_clock: Bit, ins: Seq<Seq<Bit>>) -> bool {
    &&& signal::bit_of(ins[3], 0) != Bit::One
    &&& signal::bit_of(ins[1], 0) != Bit::Zero
    &&& bus == RamBus::Asynch || fires(Trigger::Rising, last_clock, signal::bit_of(ins[4], 0))
    &&& if bus == RamBus::Separate {
        signal::bit_of(ins[5], 0) != Bit::Zero
    } else {
        signal::bit_of(ins[2], 0) == Bit::Zero
    }
}

/// A Ram gives back what was written: after a write of a fully defined word, an evaluation that
/// neither writes nor clears and reads the same address outputs that word.
pub proof fn ram_reads_what_was_written(
    g: GateView,
    write: Seq<Seq<Bit>>,
    read: Seq<Seq<Bit>>,
    addr: nat,
)
    requires
        valid(g),
        g matches GateView::Ram { addr_bits, data_bits, bus, last_clock, .. } && {
            &&& ram_writes(bus, last_clock, write)
            &&& signal::word(write[0], addr_bits as nat) == Some(addr)
            &&& signal::defined(
                if bus == RamBus::Separate {
                    write[6]
                } else {
                    write[5]
                },
                data_bits as nat,
            )
            &&& signal::word(read[0], addr_bits as nat) == Some(addr)
            &&& !ram_writes(bus, signal::bit_of(write[4], 0), read)
            &&& signal::bit_of(read[3], 0) != Bit::One
            &&& signal::bit_of(read[1], 0) != Bit::Zero
            &&& signal::bit_of(read[2], 0) != Bit::Zero
        },
    ensures
        g matches GateView::Ram { data_bits, bus, .. } && evaluated(evaluated(g, write).0, read).1
            == seq![
            signal::fitted(
                if bus == RamBus::Separate {
                    write[6]
                } else {
                    write[5]
                },
                data_bits as nat,
            ),
        ],
{
    if let GateView::Ram { addr_bits, data_bits, bus, .. } = g {
        let data = if bus == RamBus::Separate {
            write[6]
        } else {
            write[5]
        };
        signal::value_bound(write[0], addr_bits as nat);
        signal::value_bound(data, data_bits as nat);
        power2::lemma2_to64();
        if data_bits < 32 {
            power2::lemma_pow2_strictly_increases(data_bits as nat, 32);
        }
        signal::word_round_trip(data, data_bits as nat);
    }
}

/// Writing a Ram cell leaves every other cell as it was.
pub proof fn ram_write_is_local(g: GateView, ins: Seq<Seq<Bit>>, addr: nat, other: int)
    requires
        g matches GateView::Ram { addr_bits, contents, .. } && signal::word(
            ins[0],
            addr_bits as nat,
        ) == Some(addr) && 0 <= other < contents.len() && other != addr,
        valid(g),
        signal::bit_of(ins[3], 0) != Bit::One,
    ensures
        g matches GateView::Ram { contents, .. } && evaluated(g, ins).0 matches GateView::Ram {
            contents: after,
            ..
        } && after.len() == contents.len() && after[other] == contents[other],
{
    if let GateView::Ram { addr_bits, .. } = g {
        signal::value_bound(ins[0], addr_bits as nat);
    }
}

/// The widths of the signals that a memory gate keeps.
pub open spec fn widths_kept(g: GateView) -> bool {
    match g {
        GateView::Rom { data_bits, held_data, .. } => held_data.len() == data_bits,
        GateView::Ram { data_bits, held_data, .. } => held_data.len() == data_bits,
        _ => true,
    }
}

proof fn cells_round_trip(s: Seq<u8>, contents: Seq<u32>, held: Seq<Bit>)
    requires
        (state::words_bytes(contents) + state::bytes_of(held)).is_prefix_of(s),
    ensures
        state::words_at(s, contents.len()) == contents,
        state::bits_at(s, (4 * contents.len()) as int, held.len(), Bit::Zero) == held,
{
    let both = state::words_bytes(contents) + state::bytes_of(held);
    let n = (4 * contents.len()) as int;
    assert(s.take(n) =~= state::words_bytes(contents)) by {
        assert forall|i: int| 0 <= i < n implies s[i] == state::words_bytes(contents)[i] by {
            assert(both[i] == s[i]);
        }
    }
    state::words_survive(s, contents);
    assert forall|i: int| 0 <= i < held.len() implies s[n + i] == state::byte_of(
        #[trigger] held[i],
    ) by {
        assert(both[n + i] == s[n + i]);
    }
    state::bits_survive(s, n, held, Bit::Zero);
}

/// Saving a memory gate and restoring the bytes into a gate of the same configuration gives
/// the saved gate back.
pub proof fn memory_round_trip(g: GateView, h: GateView)
    requires
        g.category() is Memory,
        widths_kept(g),
        reset(g) == reset(h),
    ensures
        restored(h, saved(g)) == g,
{
    let s = saved(g);
    match g {
        GateView::Clock { clicks, sending, .. } => {
            assert forall|i: int| 0 <= i < 8 implies #[trigger] state::le64(clicks as nat)[i]
                == s[0 + i] by {
            }
            state::u64_survives(s, 0, clicks);
        },
        GateView::Register { value, last_clock, .. } => {
            assert forall|i: int| 0 <= i < 4 implies #[trigger] state::le32(value as nat)[i] == s[0
                + i] by {
            }
            state::u32_survives(s, 0, value);
        },
        GateView::Rom { contents, held_data, .. } => {
            cells_round_trip(s, contents, held_data);
        },
        GateView::Ram { contents, held_data, last_clock, .. } => {
            if let GateView::Ram { contents: other, .. } = h {
                assert(blank(contents.len()).len() == blank(other.len()).len());
            }
            cells_round_trip(s, contents, held_data);
            assert(s[(4 * contents.len() + held_data.len()) as int] == state::byte_of(last_clock));
        },
        _ => {},
    }
}

} // verus!
