//! What the gates do, gate by gate: what an evaluation gives for the levels and numbers on the
//! input pins.
use vstd::prelude::*;
use vstd::arithmetic::{div_mod, power2};
use super::{arithmetic, logic, memory, plexers, signal, GateView, RamBus, Trigger};
use crate::plugin_abi;
use crate::plugin_abi::{ActionErrorView, Bit, ValueView};

verus! {

/// The level on bit `i` of input pin `p`.
pub open spec fn on(ins: Seq<Seq<Bit>>, p: int, i: int) -> Bit {
    signal::bit_of(ins[p], i)
}

/// A clock edge or level that a trigger waits for, by the levels before and now.
proof fn edges(trigger: Trigger, before: Bit, now: Bit)
    ensures
        memory::fires(trigger, before, now) <==> ({
            ||| trigger == Trigger::Rising && before == Bit::Zero && now == Bit::One
            ||| trigger == Trigger::Falling && before == Bit::One && now == Bit::Zero
            ||| trigger == Trigger::High && now == Bit::One
            ||| trigger == Trigger::Low && now == Bit::Zero
        }),
{
}

/// An enabled register that is not cleared takes its data word when its clock pin does what it
/// waits for: goes from `Zero` to `One`, goes from `One` to `Zero`, is `One`, or is `Zero`. It
/// outputs the word and holds it as a number.
pub proof fn registers_take_their_data(
    bits: u8,
    trigger: Trigger,
    value: u32,
    before: Bit,
    ins: Seq<Seq<Bit>>,
)
    requires
        bits <= 32,
        ins.len() >= 4,
        on(ins, 2, 0) != Bit::One,
        on(ins, 3, 0) != Bit::Zero,
        signal::defined(ins[0], bits as nat),
        ({
            ||| trigger == Trigger::Rising && before == Bit::Zero && on(ins, 1, 0) == Bit::One
            ||| trigger == Trigger::Falling && before == Bit::One && on(ins, 1, 0) == Bit::Zero
            ||| trigger == Trigger::High && on(ins, 1, 0) == Bit::One
            ||| trigger == Trigger::Low && on(ins, 1, 0) == Bit::Zero
        }),
    ensures
        ({
            let g = GateView::Register { bits, trigger, value, last_clock: before };
            let (after, out) = g.eval(ins);
            &&& out.len() == 1 && out[0].len() == bits
            &&& forall|i: int| 0 <= i < bits ==> #[trigger] out[0][i] == ins[0][i]
            &&& after == (GateView::Register {
                bits,
                trigger,
                value: signal::value_of(ins[0], bits as nat) as u32,
                last_clock: on(ins, 1, 0),
            })
        }),
{
    edges(trigger, before, on(ins, 1, 0));
    memory::register_outputs_what_it_latched(bits, trigger, value, before, ins);
    signal::bits_have_positions(ins[0], bits as nat, 0, Bit::Zero);
}

/// A register keeps its value when it is not enabled, when its clock pin does not do what it
/// waits for, and when a bit of its data is no level; a clear makes it zero whatever else.
pub proof fn registers_keep_their_value(
    bits: u8,
    trigger: Trigger,
    value: u32,
    before: Bit,
    ins: Seq<Seq<Bit>>,
)
    requires
        ins.len() >= 4,
    ensures
        ({
            let g = GateView::Register { bits, trigger, value, last_clock: before };
            let (after, out) = g.eval(ins);
            let kept = GateView::Register {
                bits,
                trigger,
                value,
                last_clock: on(ins, 1, 0),
            };
            let now = on(ins, 1, 0);
            let waits = {
                ||| on(ins, 3, 0) == Bit::Zero
                ||| !signal::defined(ins[0], bits as nat)
                ||| trigger == Trigger::Rising && (before != Bit::Zero || now != Bit::One)
                ||| trigger == Trigger::Falling && (before != Bit::One || now != Bit::Zero)
                ||| trigger == Trigger::High && now != Bit::One
                ||| trigger == Trigger::Low && now != Bit::Zero
            };
            &&& on(ins, 2, 0) != Bit::One && waits ==> after == kept && out == seq![
                signal::bits_of(value as int, bits as nat),
            ]
            &&& on(ins, 2, 0) == Bit::One ==> after == (GateView::Register {
                bits,
                trigger,
                value: 0,
                last_clock: now,
            }) && out == seq![signal::filled(bits as nat, Bit::Zero)]
        }),
{
    edges(trigger, before, on(ins, 1, 0));
    if on(ins, 2, 0) == Bit::One {
        memory::clear_wins(bits, trigger, value, before, ins);
    }
}

/// An action sets a register to a number modulo two to its width, at once, and a readout gives
/// the number's digits. Nothing but a number sets it.
pub proof fn registers_are_set(
    bits: u8,
    trigger: Trigger,
    value: u32,
    last_clock: Bit,
    i: i64,
    other: Option<ValueView>,
)
    requires
        1 <= bits <= 32,
        !(other matches Some(ValueView::Int(_))),
    ensures
        ({
            let g = GateView::Register { bits, trigger, value, last_clock };
            let (after, outcome) = g.invoke("set"@, Some(ValueView::Int(i)));
            &&& outcome is Ok
            &&& after.read("get"@) == Ok::<ValueView, Seq<char>>(
                ValueView::Bits(signal::bits_of(i as int, bits as nat)),
            )
            &&& after matches GateView::Register {
                bits: b,
                trigger: t,
                last_clock: c,
                value: v,
            } && b == bits && t == trigger && c == last_clock && v < power2::pow2(bits as nat)
            &&& g.invoke("set"@, other).1 is Err
        }),
{
    let w = power2::pow2(bits as nat) as int;
    power2::lemma_pow2_pos(bits as nat);
    power2::lemma2_to64();
    if bits < 32 {
        power2::lemma_pow2_strictly_increases(bits as nat, 32);
    }
    div_mod::lemma_mod_bound(i as int, w);
    let v = i as int % w;
    assert forall|k: int| 0 <= k < bits implies signal::bits_of(v, bits as nat)[k]
        == signal::bits_of(i as int, bits as nat)[k] by {
        div_mod::lemma_fundamental_div_mod(i as int, w);
        vstd::arithmetic::mul::lemma_mul_is_commutative(w, i as int / w);
        signal::digit_of_sum(v, i as int / w, k as nat, bits as nat);
    }
    assert(signal::bits_of(v, bits as nat) =~= signal::bits_of(i as int, bits as nat));
}

/// At tick `q * (high + low) + r`, with `r` below `high + low`, an untoggled clock reads `Zero`
/// for the first `low` values of `r` and `One` for the others; after an odd number of toggles
/// it is the other way round. What it read before has no say.
pub proof fn clocks_are_low_first(
    high: u64,
    low: u64,
    clicks: u64,
    sending: Bit,
    tick: u64,
    q: int,
    r: int,
    ins: Seq<Seq<Bit>>,
)
    requires
        0 <= r < high + low,
        tick == q * (high + low) + r,
    ensures
        ({
            let g = memory::ticked(GateView::Clock { high, low, clicks, sending }, tick);
            let level = if clicks % 2 == 0 {
                if r < low {
                    Bit::Zero
                } else {
                    Bit::One
                }
            } else {
                if r < low {
                    Bit::One
                } else {
                    Bit::Zero
                }
            };
            &&& g.eval(ins).1 == seq![seq![level]]
            &&& g.read("get"@) == Ok::<ValueView, Seq<char>>(ValueView::Bits(seq![level]))
            &&& g matches GateView::Clock { high: h, low: l, clicks: c, .. } && h == high && l
                == low && c == clicks
        }),
{
    div_mod::lemma_fundamental_div_mod_converse(tick as int, high + low, q, r);
}

/// How often a clock reads `One` at the `k` ticks from `from` on.
pub open spec fn times_high(high: u64, low: u64, clicks: u64, from: int, k: nat) -> nat
    decreases k,
{
    if k == 0 {
        0
    } else {
        let g = memory::ticked(
            GateView::Clock { high, low, clicks, sending: Bit::Zero },
            (from + k - 1) as u64,
        );
        times_high(high, low, clicks, from, (k - 1) as nat) + (if g.eval(Seq::empty()).1[0][0]
            == Bit::One {
            1nat
        } else {
            0nat
        })
    }
}

/// In every period an untoggled clock is high `high` times, and one toggled an odd number of
/// times `low` times.
pub proof fn clocks_are_high_as_long_as_they_say(
    high: u64,
    low: u64,
    clicks: u64,
    q: int,
    k: nat,
)
    requires
        0 < high + low,
        0 <= q,
        k <= high + low,
        q * (high + low) + k <= u64::MAX,
    ensures
        times_high(high, low, clicks, q * (high + low), k) == (if clicks % 2 == 0 {
            if k <= low {
                0
            } else {
                k - low
            }
        } else {
            if k <= low {
                k as int
            } else {
                low as int
            }
        }),
        k == high + low && clicks % 2 == 0 ==> times_high(high, low, clicks, q * (high + low), k)
            == high,
        k == high + low && clicks % 2 == 1 ==> times_high(high, low, clicks, q * (high + low), k)
            == low,
    decreases k,
{
    if k > 0 {
        let p = high + low;
        assert(0 <= q * p) by (nonlinear_arith)
            requires
                0 <= q,
                0 < p,
        ;
        clocks_are_high_as_long_as_they_say(high, low, clicks, q, (k - 1) as nat);
        clocks_are_low_first(
            high,
            low,
            clicks,
            Bit::Zero,
            (q * p + k - 1) as u64,
            q,
            k - 1,
            Seq::empty(),
        );
    }
}

/// A toggle turns the level of a clock round and counts; nothing else is an action of it.
pub proof fn clocks_are_toggled(
    high: u64,
    low: u64,
    clicks: u64,
    sending: Bit,
    name: Seq<char>,
    arg: Option<ValueView>,
)
    requires
        clicks < u64::MAX,
    ensures
        ({
            let g = GateView::Clock { high, low, clicks, sending };
            &&& name == "toggle"@ ==> g.invoke(name, arg) == (
                GateView::Clock {
                    high,
                    low,
                    clicks: (clicks + 1) as u64,
                    sending: if sending == Bit::Zero {
                        Bit::One
                    } else if sending == Bit::One {
                        Bit::Zero
                    } else {
                        Bit::Error
                    },
                },
                Ok::<(), ActionErrorView>(()),
            )
            &&& name != "toggle"@ ==> g.invoke(name, arg) == (
                g,
                Err::<(), ActionErrorView>(ActionErrorView::UnknownAction(name)),
            )
        }),
{
}

/// A read-only memory outputs the cell at its address, floats while it is not selected, and
/// keeps what it output where its address is undefined. Its cells never change.
pub proof fn roms_are_read(
    addr_bits: u8,
    data_bits: u8,
    contents: Seq<u32>,
    held_data: Seq<Bit>,
    ins: Seq<Seq<Bit>>,
)
    requires
        ins.len() >= 2,
    ensures
        ({
            let g = GateView::Rom { addr_bits, data_bits, contents, held_data };
            let (after, out) = g.eval(ins);
            let a = signal::value_of(ins[0], addr_bits as nat);
            let want = if on(ins, 1, 0) == Bit::Zero {
                signal::filled(data_bits as nat, Bit::Unknown)
            } else if signal::defined(ins[0], addr_bits as nat) {
                signal::bits_of(contents[a as int] as int, data_bits as nat)
            } else {
                held_data
            };
            &&& out == seq![want]
            &&& after == (GateView::Rom { addr_bits, data_bits, contents, held_data: want })
        }),
{
}

/// A memory takes its data word into the cell at its address when it is selected and not
/// cleared, its clock goes from `Zero` to `One` (or without any edge, where it is
/// asynchronous), and the write is on: output enable `Zero`, or on a separate bus write enable
/// not `Zero`. Otherwise every cell stays; a clear empties all. A word that is not fully
/// defined is stored as all ones.
pub proof fn memories_are_written(
    addr_bits: u8,
    data_bits: u8,
    bus: RamBus,
    contents: Seq<u32>,
    before: Bit,
    held_data: Seq<Bit>,
    ins: Seq<Seq<Bit>>,
    k: int,
)
    requires
        ins.len() >= if bus == RamBus::Separate {
            7int
        } else {
            6int
        },
        data_bits <= 32,
        addr_bits <= 32,
        contents.len() >= power2::pow2(addr_bits as nat),
        0 <= k < contents.len(),
    ensures
        ({
            let g = GateView::Ram {
                addr_bits,
                data_bits,
                bus,
                contents,
                last_clock: before,
                held_data,
            };
            let data = if bus == RamBus::Separate {
                ins[6]
            } else {
                ins[5]
            };
            let write_on = if bus == RamBus::Separate {
                on(ins, 5, 0) != Bit::Zero
            } else {
                on(ins, 2, 0) == Bit::Zero
            };
            let edge = bus == RamBus::Asynch || (before == Bit::Zero && on(ins, 4, 0) == Bit::One);
            let written = on(ins, 3, 0) != Bit::One && on(ins, 1, 0) != Bit::Zero && edge
                && write_on && signal::defined(ins[0], addr_bits as nat) && k == signal::value_of(
                ins[0],
                addr_bits as nat,
            );
            &&& g.eval(ins).0 matches GateView::Ram {
                contents: cells,
                last_clock,
                addr_bits: a,
                data_bits: d,
                bus: b,
                ..
            } && cells.len() == contents.len() && last_clock == on(ins, 4, 0) && a == addr_bits
                && d == data_bits && b == bus && cells[k] == (if on(ins, 3, 0) == Bit::One {
                0
            } else if !written {
                contents[k] as int
            } else if signal::defined(data, data_bits as nat) {
                signal::value_of(data, data_bits as nat) as int
            } else {
                power2::pow2(data_bits as nat) - 1
            })
        }),
{
    signal::value_bound(ins[0], addr_bits as nat);
    let data = if bus == RamBus::Separate {
        ins[6]
    } else {
        ins[5]
    };
    signal::value_bound(data, data_bits as nat);
    power2::lemma2_to64();
    power2::lemma_pow2_pos(data_bits as nat);
    if data_bits < 32 {
        power2::lemma_pow2_strictly_increases(data_bits as nat, 32);
    }
}

/// A memory outputs the cell at its address as it is after the evaluation; it floats while it is
/// not selected or its output is off, and keeps what it output where its address is undefined.
pub proof fn memories_are_read(
    addr_bits: u8,
    data_bits: u8,
    bus: RamBus,
    contents: Seq<u32>,
    before: Bit,
    held_data: Seq<Bit>,
    ins: Seq<Seq<Bit>>,
)
    requires
        ins.len() >= if bus == RamBus::Separate {
            7int
        } else {
            6int
        },
    ensures
        ({
            let g = GateView::Ram {
                addr_bits,
                data_bits,
                bus,
                contents,
                last_clock: before,
                held_data,
            };
            let (after, out) = g.eval(ins);
            let a = signal::value_of(ins[0], addr_bits as nat) as int;
            &&& after matches GateView::Ram { contents: cells, held_data: held, .. } && out == seq![
                held,
            ] && held == (if on(ins, 1, 0) == Bit::Zero {
                signal::filled(data_bits as nat, Bit::Unknown)
            } else if !signal::defined(ins[0], addr_bits as nat) {
                held_data
            } else if on(ins, 2, 0) == Bit::Zero {
                signal::filled(data_bits as nat, Bit::Unknown)
            } else {
                signal::bits_of(cells[a] as int, data_bits as nat)
            })
        }),
{
}

/// At least one input reads `One` at bit `i` where one does, and at least two where two do.
proof fn ones_count(ins: Seq<Seq<Bit>>, i: int, k: nat)
    ensures
        logic::ones(ins, i, k) == 0 <==> forall|j: int|
            0 <= j < k ==> signal::bit_of(#[trigger] ins[j], i) != Bit::One,
        logic::ones(ins, i, k) == 1 <==> exists|j: int|
            0 <= j < k && is_only_one(ins, i, k, j),
    decreases k,
{
    if k > 0 {
        let n = (k - 1) as nat;
        ones_count(ins, i, n);
        let top = signal::bit_of(ins[k - 1], i) == Bit::One;
        if logic::ones(ins, i, k) == 0 {
            assert(!top);
            assert forall|j: int| 0 <= j < k implies signal::bit_of(#[trigger] ins[j], i)
                != Bit::One by {
                assert(j < n || j == k - 1);
            }
        }
        if logic::ones(ins, i, k) == 1 {
            if top {
                assert(is_only_one(ins, i, k, k - 1));
            } else {
                let j = choose|j: int| 0 <= j < n && is_only_one(ins, i, n, j);
                assert(is_only_one(ins, i, k, j));
            }
        }
        if exists|j: int| 0 <= j < k && is_only_one(ins, i, k, j) {
            let j = choose|j: int| 0 <= j < k && is_only_one(ins, i, k, j);
            if j < n {
                assert(is_only_one(ins, i, n, j));
                assert(signal::bit_of(ins[k - 1], i) != Bit::One);
            } else {
                assert forall|h: int| 0 <= h < n implies signal::bit_of(#[trigger] ins[h], i)
                    != Bit::One by {}
            }
        }
    }
}

/// Input `j` is the only one of the first `k` that reads `One` at bit `i`.
pub open spec fn is_only_one(ins: Seq<Seq<Bit>>, i: int, k: nat, j: int) -> bool {
    &&& signal::bit_of(ins[j], i) == Bit::One
    &&& forall|h: int| 0 <= h < k && h != j ==> signal::bit_of(#[trigger] ins[h], i) != Bit::One
}

/// Bit `i` of what the gates with many inputs output. And gives `Zero` where an input does and
/// `One` where all do, or gives `One` where an input does and `Zero` where all do, and what is
/// left is an error. Exclusive or gives an error where an input is undefined, and otherwise
/// `One` where exactly one input does and `Zero` elsewhere. The negated gates swap the levels.
pub proof fn many_inputs_are_combined(bits: u8, inputs: usize, ins: Seq<Seq<Bit>>, i: int)
    requires
        0 <= i < bits,
        ins.len() >= 2,
    ensures
        ({
            let and = (GateView::And { bits, inputs }).eval(ins).1;
            let or = (GateView::Or { bits, inputs }).eval(ins).1;
            let nand = (GateView::Nand { bits, inputs }).eval(ins).1;
            let nor = (GateView::Nor { bits, inputs }).eval(ins).1;
            let xor = (GateView::Xor { bits, inputs }).eval(ins).1;
            let xnor = (GateView::Xnor { bits, inputs }).eval(ins).1;
            let any_one = exists|j: int|
                0 <= j < ins.len() && #[trigger] on(ins, j, i) == Bit::One;
            let any_zero = exists|j: int|
                0 <= j < ins.len() && #[trigger] on(ins, j, i) == Bit::Zero;
            let any_undefined = exists|j: int|
                0 <= j < ins.len() && (#[trigger] on(ins, j, i) == Bit::Unknown || on(ins, j, i)
                    == Bit::Error);
            let only_one = exists|j: int| 0 <= j < ins.len() && is_only_one(ins, i, ins.len(), j);
            &&& and.len() == 1 && or.len() == 1 && nand.len() == 1 && nor.len() == 1
            &&& xor.len() == 1 && xnor.len() == 1
            &&& and[0].len() == bits && or[0].len() == bits && nand[0].len() == bits
            &&& nor[0].len() == bits && xor[0].len() == bits && xnor[0].len() == bits
            &&& and[0][i] == (if any_zero {
                Bit::Zero
            } else if any_undefined {
                Bit::Error
            } else {
                Bit::One
            })
            &&& nand[0][i] == (if any_zero {
                Bit::One
            } else if any_undefined {
                Bit::Error
            } else {
                Bit::Zero
            })
            &&& or[0][i] == (if any_one {
                Bit::One
            } else if any_undefined {
                Bit::Error
            } else {
                Bit::Zero
            })
            &&& nor[0][i] == (if any_one {
                Bit::Zero
            } else if any_undefined {
                Bit::Error
            } else {
                Bit::One
            })
            &&& xor[0][i] == (if any_undefined {
                Bit::Error
            } else if only_one {
                Bit::One
            } else {
                Bit::Zero
            })
            &&& xnor[0][i] == (if any_undefined {
                Bit::Error
            } else if only_one {
                Bit::Zero
            } else {
                Bit::One
            })
        }),
{
    logic::and_dominance(bits, inputs, ins, i);
    logic::or_dominance(bits, inputs, ins, i);
    logic::negated_gates(bits, inputs, ins, i);
    ones_count(ins, i, ins.len());
    assert forall|j: int| 0 <= j < ins.len() implies #[trigger] on(ins, j, i) == signal::bit_of(
        ins[j],
        i,
    ) by {}
    assert forall|j: int| 0 <= j < ins.len() implies signal::bit_of(#[trigger] ins[j], i) == on(
        ins,
        j,
        i,
    ) by {}
}

/// A gate with a single input hands it on as it is, or negated.
pub proof fn single_inputs_are_handed_on(bits: u8, inputs: usize, ins: Seq<Seq<Bit>>, i: int)
    requires
        0 <= i < bits,
        ins.len() == 1,
    ensures
        (GateView::And { bits, inputs }).eval(ins).1[0][i] == on(ins, 0, i),
        (GateView::Or { bits, inputs }).eval(ins).1[0][i] == on(ins, 0, i),
{
}

/// An inverter swaps the levels and errs on what is none, a buffer hands its data on, and a
/// controlled buffer hands it on while its control reads `One`, drives nothing while it reads
/// `Zero`, and errs otherwise.
pub proof fn data_is_handed_on(bits: u8, ins: Seq<Seq<Bit>>, i: int)
    requires
        0 <= i < bits,
        ins.len() >= 2,
    ensures
        ({
            let not = (GateView::Not { bits }).eval(ins).1;
            let buffer = (GateView::Buffer { bits }).eval(ins).1;
            let controlled = (GateView::ControlledBuffer { bits }).eval(ins).1;
            let b = on(ins, 0, i);
            &&& not.len() == 1 && buffer.len() == 1 && controlled.len() == 1
            &&& not[0].len() == bits && buffer[0].len() == bits && controlled[0].len() == bits
            &&& not[0][i] == (if b == Bit::Zero {
                Bit::One
            } else if b == Bit::One {
                Bit::Zero
            } else {
                Bit::Error
            })
            &&& buffer[0][i] == b
            &&& controlled[0][i] == (if on(ins, 1, 0) == Bit::One {
                b
            } else if on(ins, 1, 0) == Bit::Zero {
                Bit::Unknown
            } else {
                Bit::Error
            })
        }),
{
}

/// One of the low `n` bits of a pin reads `b`.
pub open spec fn reads_somewhere(pin: Seq<Bit>, n: int, b: Bit) -> bool {
    exists|i: int| 0 <= i < n && #[trigger] signal::bit_of(pin, i) == b
}

proof fn defined_select(pin: Seq<Bit>, n: nat)
    ensures
        signal::defined(pin, n) <==> !reads_somewhere(pin, n as int, Bit::Error)
            && !reads_somewhere(pin, n as int, Bit::Unknown),
        plexers::some_bit(pin, n, Bit::Error) == reads_somewhere(pin, n as int, Bit::Error),
        plexers::some_bit(pin, n, Bit::Unknown) == reads_somewhere(pin, n as int, Bit::Unknown),
{
    if signal::defined(pin, n) {
        assert forall|i: int| 0 <= i < n implies #[trigger] signal::bit_of(pin, i) != Bit::Error
            && signal::bit_of(pin, i) != Bit::Unknown by {
            assert(plugin_abi::is_level(signal::bit_of(pin, i)));
        }
    }
    if !reads_somewhere(pin, n as int, Bit::Error) && !reads_somewhere(
        pin,
        n as int,
        Bit::Unknown,
    ) {
        assert forall|i: int| 0 <= i < n implies plugin_abi::is_level(
            #[trigger] signal::bit_of(pin, i),
        ) by {
            let b = signal::bit_of(pin, i);
            assert(b != Bit::Error && b != Bit::Unknown);
        }
    }
}

/// A multiplexer outputs the data input whose number its select pin reads. It floats or reads
/// zero, as it is told, while its enable pin reads `Zero`; an error on that pin, and then an
/// error or an undriven bit on the select pin, is what all its output reads.
pub proof fn multiplexers_select(
    bits: u8,
    select_bits: u8,
    has_enable: bool,
    disabled_zero: bool,
    ins: Seq<Seq<Bit>>,
)
    requires
        ins.len() >= power2::pow2(select_bits as nat) + 2,
    ensures
        ({
            let g = GateView::Mux { bits, select_bits, has_enable, disabled_zero };
            let (after, out) = g.eval(ins);
            let n = power2::pow2(select_bits as nat) as int;
            let w = bits as nat;
            let k = signal::value_of(ins[n], select_bits as nat) as int;
            &&& after == g
            &&& out == seq![
                if has_enable && on(ins, n + 1, 0) == Bit::Zero {
                    signal::filled(
                        w,
                        if disabled_zero {
                            Bit::Zero
                        } else {
                            Bit::Unknown
                        },
                    )
                } else if has_enable && on(ins, n + 1, 0) == Bit::Error {
                    signal::filled(w, Bit::Error)
                } else if reads_somewhere(ins[n], select_bits as int, Bit::Error) {
                    signal::filled(w, Bit::Error)
                } else if reads_somewhere(ins[n], select_bits as int, Bit::Unknown) {
                    signal::filled(w, Bit::Unknown)
                } else {
                    signal::fitted(ins[k], w)
                },
            ]
        }),
{
    defined_select(ins[power2::pow2(select_bits as nat) as int], select_bits as nat);
}

/// A demultiplexer puts its data on the output whose number its select pin reads, and zero, or
/// nothing where it is told so, on the others; a decoder does so with `One`. Disabled, or with
/// an undefined select pin, all outputs read alike.
pub proof fn demultiplexers_and_decoders_select(
    bits: u8,
    select_bits: u8,
    has_enable: bool,
    disabled_zero: bool,
    tristate: bool,
    ins: Seq<Seq<Bit>>,
    i: int,
)
    requires
        ins.len() >= 3,
        0 <= i < power2::pow2(select_bits as nat),
    ensures
        ({
            let demux = GateView::Demux { bits, select_bits, has_enable, disabled_zero, tristate };
            let decoder = GateView::Decoder { select_bits, has_enable, disabled_zero, tristate };
            let data = if has_enable {
                ins[2]
            } else {
                ins[1]
            };
            let k = signal::value_of(ins[0], select_bits as nat);
            let all = if has_enable && on(ins, 1, 0) == Bit::Zero {
                Some(
                    if disabled_zero {
                        Bit::Zero
                    } else {
                        Bit::Unknown
                    },
                )
            } else if has_enable && on(ins, 1, 0) == Bit::Error {
                Some(Bit::Error)
            } else if reads_somewhere(ins[0], select_bits as int, Bit::Error) {
                Some(Bit::Error)
            } else if reads_somewhere(ins[0], select_bits as int, Bit::Unknown) {
                Some(Bit::Unknown)
            } else {
                None
            };
            let idle = if tristate {
                Bit::Unknown
            } else {
                Bit::Zero
            };
            &&& demux.eval(ins).0 == demux && decoder.eval(ins).0 == decoder
            &&& demux.eval(ins).1.len() == power2::pow2(select_bits as nat)
            &&& decoder.eval(ins).1.len() == power2::pow2(select_bits as nat)
            &&& demux.eval(ins).1[i] == (match all {
                Some(b) => signal::filled(bits as nat, b),
                None => if i == k {
                    signal::fitted(data, bits as nat)
                } else {
                    signal::filled(bits as nat, idle)
                },
            })
            &&& decoder.eval(ins).1[i] == seq![
                match all {
                    Some(b) => b,
                    None => if i == k {
                        Bit::One
                    } else {
                        idle
                    },
                },
            ]
        }),
{
    defined_select(ins[0], select_bits as nat);
    let decoder = GateView::Decoder { select_bits, has_enable, disabled_zero, tristate };
    assert(decoder.eval(ins).1[i].len() == 1);
    assert(decoder.eval(ins).1[i] =~= seq![decoder.eval(ins).1[i][0]]);
}

/// A priority encoder outputs the number of the highest input that reads `One` and says that
/// there is one; where there is none its number floats and it says that instead. Disabled by a
/// `Zero`, it says neither.
pub proof fn priority_encoders_find_the_highest(
    select_bits: u8,
    disabled_zero: bool,
    ins: Seq<Seq<Bit>>,
    k: int,
)
    requires
        ins.len() >= power2::pow2(select_bits as nat) + 1,
    ensures
        ({
            let g = GateView::PriorityEncoder { select_bits, disabled_zero };
            let (after, out) = g.eval(ins);
            let n = power2::pow2(select_bits as nat) as int;
            let w = select_bits as nat;
            let highest = 0 <= k < n && on(ins, k, 0) == Bit::One && forall|j: int|
                k < j < n ==> #[trigger] on(ins, j, 0) != Bit::One;
            let none = forall|j: int| 0 <= j < n ==> #[trigger] on(ins, j, 0) != Bit::One;
            &&& after == g
            &&& on(ins, n, 0) == Bit::Zero ==> out == seq![
                signal::filled(
                    w,
                    if disabled_zero {
                        Bit::Zero
                    } else {
                        Bit::Unknown
                    },
                ),
                seq![Bit::Zero],
                seq![Bit::Zero],
            ]
            &&& on(ins, n, 0) != Bit::Zero && highest ==> out == seq![
                signal::bits_of(k, w),
                seq![Bit::Zero],
                seq![Bit::One],
            ]
            &&& on(ins, n, 0) != Bit::Zero && none ==> out == seq![
                signal::filled(w, Bit::Unknown),
                seq![Bit::One],
                seq![Bit::Zero],
            ]
        }),
{
    let n = power2::pow2(select_bits as nat);
    plexers::highest_line_is_highest(ins, n);
    if let Some(h) = plexers::highest_line(ins, n) {
        assert(on(ins, h as int, 0) == Bit::One);
        assert forall|j: int| h < j < n implies #[trigger] on(ins, j, 0) != Bit::One by {
            assert(signal::bit_of(ins[j], 0) != Bit::One);
        }
    } else {
        assert forall|j: int| 0 <= j < n implies #[trigger] on(ins, j, 0) != Bit::One by {
            assert(signal::bit_of(ins[j], 0) != Bit::One);
        }
    }
}

/// One where a carry or borrow reads `One`.
pub open spec fn carried(b: Bit) -> int {
    if b == Bit::One {
        1
    } else {
        0
    }
}

/// An adder outputs the low bits of the sum of its operands and its carry in, and carries out
/// exactly where the sum has no room in them; a subtractor outputs those of the difference, and
/// borrows exactly where it is negative. An undriven carry counts as none.
pub proof fn sums_and_differences(bits: u8, ins: Seq<Seq<Bit>>)
    requires
        ins.len() == 3,
        signal::defined(ins[0], bits as nat),
        signal::defined(ins[1], bits as nat),
        on(ins, 2, 0) != Bit::Error,
    ensures
        ({
            let n = bits as nat;
            let w = power2::pow2(n) as int;
            let added = (GateView::Adder { bits }).eval(ins).1;
            let subtracted = (GateView::Subtractor { bits }).eval(ins).1;
            let x = signal::value_of(ins[0], n) as int;
            let y = signal::value_of(ins[1], n) as int;
            let c = carried(on(ins, 2, 0));
            &&& (GateView::Adder { bits }).eval(ins).0 == (GateView::Adder { bits })
            &&& (GateView::Subtractor { bits }).eval(ins).0 == (GateView::Subtractor { bits })
            &&& added == seq![
                signal::bits_of((x + y + c) % w, n),
                seq![
                    if x + y + c >= w {
                        Bit::One
                    } else {
                        Bit::Zero
                    },
                ],
            ]
            &&& subtracted == seq![
                signal::bits_of((x - y - c) % w, n),
                seq![
                    if x - y - c < 0 {
                        Bit::One
                    } else {
                        Bit::Zero
                    },
                ],
            ]
        }),
{
    let n = bits as nat;
    let w = power2::pow2(n) as int;
    let x = signal::value_of(ins[0], n) as int;
    let y = signal::value_of(ins[1], n) as int;
    let c = carried(on(ins, 2, 0));
    assert(ins =~= seq![ins[0], ins[1], ins[2]]);
    arithmetic::adder_adds(bits, ins[0], ins[1], ins[2]);
    arithmetic::subtractor_subtracts(bits, ins[0], ins[1], ins[2]);
    signal::value_bound(ins[0], n);
    signal::value_bound(ins[1], n);
    let added = (GateView::Adder { bits }).eval(ins).1;
    let subtracted = (GateView::Subtractor { bits }).eval(ins).1;
    signal::value_bound(added[0], n);
    signal::value_bound(subtracted[0], n);
    let s = signal::value_of(added[0], n) as int;
    let d = signal::value_of(subtracted[0], n) as int;
    assert(1 * w == w && 0 * w == 0) by (nonlinear_arith);
    assert(s + carried(added[1][0]) * w == x + y + c);
    assert(d - carried(subtracted[1][0]) * w == x - y - c);
    if added[1][0] == Bit::One {
        div_mod::lemma_fundamental_div_mod_converse(x + y + c, w, 1, s);
    } else {
        div_mod::lemma_fundamental_div_mod_converse(x + y + c, w, 0, s);
    }
    if subtracted[1][0] == Bit::One {
        assert((-1) * w == -w) by (nonlinear_arith);
        div_mod::lemma_fundamental_div_mod_converse(x - y - c, w, -1, d);
    } else {
        div_mod::lemma_fundamental_div_mod_converse(x - y - c, w, 0, d);
    }
    signal::word_round_trip(added[0], n);
    signal::word_round_trip(subtracted[0], n);
    assert(signal::fitted(added[0], n) =~= added[0]);
    assert(signal::fitted(subtracted[0], n) =~= subtracted[0]);
    assert(added[1] =~= seq![added[1][0]]);
    assert(subtracted[1] =~= seq![subtracted[1][0]]);
    assert(added =~= seq![added[0], added[1]]);
    assert(subtracted =~= seq![subtracted[0], subtracted[1]]);
}

} // verus!
