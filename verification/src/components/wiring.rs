//! Sources, sinks and width changers: Constant, InputPin, OutputPin, PullResistor, BitExtender,
//! HexDigit and Transistor.
use vstd::prelude::*;
use vstd::arithmetic::power2;
use vstd::string::StringExecFns;
use super::signal::{bit_at, fill, fit, i64_to_signal, signal_to_u32_if_defined, u32_to_signal, zeros};
use super::state::{push_bits, read_bits};
use super::{arithmetic, signal, state, Gate, GateView};
use crate::plugin_abi;
use crate::plugin_abi::{
    ActionError, ActionErrorView, Bit, ReadoutError, Signal, Value, ValueView,
};
use crate::text;

verus! {

/// Which bit fills the positions beyond a bit extender's input.
#[derive(Debug, Clone, Copy, PartialEq, Eq, Structural)]
pub enum ExtendMode {
    Zero,
    One,
    /// The input's own top bit.
    Sign,
    /// The bit on a second input pin.
    Input,
}

/// The fill bit of an extender.
pub open spec fn fill_bit(mode: ExtendMode, in_bits: nat, ins: Seq<Seq<Bit>>) -> Bit {
    match mode {
        ExtendMode::Zero => Bit::Zero,
        ExtendMode::One => Bit::One,
        ExtendMode::Sign => signal::bit_of(ins[0], in_bits - 1),
        ExtendMode::Input => signal::bit_of(ins[1], 0),
    }
}

/// A signal of `in_bits` bits widened with `fill`, or cut off.
pub open spec fn extended(data: Seq<Bit>, in_bits: nat, out_bits: nat, fill: Bit) -> Seq<Bit> {
    Seq::new(
        out_bits,
        |i: int|
            if i < in_bits {
                signal::bit_of(data, i)
            } else {
                fill
            },
    )
}

/// Which segments a digit lights: one hexadecimal place per segment.
pub open spec fn digit_segments(v: nat) -> nat {
    if v == 0 {
        0x1110111
    } else if v == 1 {
        0x0000011
    } else if v == 2 {
        0x0111110
    } else if v == 3 {
        0x0011111
    } else if v == 4 {
        0x1001011
    } else if v == 5 {
        0x1011101
    } else if v == 6 {
        0x1111101
    } else if v == 7 {
        0x0010011
    } else if v == 8 {
        0x1111111
    } else if v == 9 {
        0x1011011
    } else if v == 10 {
        0x1111011
    } else if v == 11 {
        0x1101101
    } else if v == 12 {
        0x1110100
    } else if v == 13 {
        0x0101111
    } else if v == 14 {
        0x1111100
    } else {
        0x1111000
    }
}

/// The segments of a digit pin: an undefined digit shows a dash.
pub open spec fn shown_segments(digit: Seq<Bit>) -> nat {
    match signal::word(digit, 4) {
        Some(v) => digit_segments(v),
        None => 0x0001000,
    }
}

/// Whether the segment at a hexadecimal place is lit.
pub open spec fn segment(segments: nat, place: nat) -> Bit {
    if (segments / place) % 2 == 1 {
        Bit::One
    } else {
        Bit::Zero
    }
}

/// The eight lights of a hex digit display, the dot last.
pub open spec fn display(digit: Seq<Bit>, dot: Bit) -> Seq<Bit> {
    let s = shown_segments(digit);
    seq![
        segment(s, 0x10000),
        segment(s, 0x10),
        segment(s, 0x1),
        segment(s, 0x100),
        segment(s, 0x100000),
        segment(s, 0x1000000),
        segment(s, 0x1000),
        if dot == Bit::One {
            Bit::One
        } else {
            Bit::Zero
        },
    ]
}

/// What a transistor drives: its input while it conducts, nothing while it blocks. While its
/// gate pin is undefined every driven bit is `Error`.
pub open spec fn conducted(gate: Bit, input: Seq<Bit>, n: nat, conducts_on: Bit) -> Seq<Bit> {
    if plugin_abi::is_level(gate) {
        if gate == conducts_on {
            signal::fitted(input, n)
        } else {
            signal::filled(n, Bit::Unknown)
        }
    } else {
        Seq::new(
            n,
            |i: int|
                if signal::bit_of(input, i) == Bit::Unknown {
                    Bit::Unknown
                } else {
                    Bit::Error
                },
        )
    }
}

/// A wiring gate and its output pins after an evaluation.
pub open spec fn evaluated(g: GateView, ins: Seq<Seq<Bit>>) -> (GateView, Seq<Seq<Bit>>) {
    match g {
        GateView::Constant { bits, value } => (
            g,
            seq![signal::bits_of(value as int, bits as nat)],
        ),
        GateView::InputPin { value, .. } => (g, seq![value]),
        GateView::OutputPin { bits, .. } => (
            GateView::OutputPin { bits, value: Seq::new(bits as nat, |i: int| signal::bit_of(ins[0], i)) },
            Seq::empty(),
        ),
        GateView::PullResistor { to } => (g, seq![seq![to]]),
        GateView::BitExtender { in_bits, out_bits, mode } => (
            g,
            seq![
                extended(
                    ins[0],
                    in_bits as nat,
                    out_bits as nat,
                    fill_bit(mode, in_bits as nat, ins),
                ),
            ],
        ),
        GateView::HexDigit { .. } => (
            GateView::HexDigit { value: display(ins[0], signal::bit_of(ins[1], 0)) },
            Seq::empty(),
        ),
        GateView::Transistor { bits, conducts_on } => (
            g,
            seq![conducted(signal::bit_of(ins[1], 0), ins[0], bits as nat, conducts_on)],
        ),
        _ => (g, Seq::empty()),
    }
}

/// A wiring gate after a reset.
pub open spec fn reset(g: GateView) -> GateView {
    match g {
        GateView::InputPin { bits, .. } => GateView::InputPin {
            bits,
            value: signal::filled(bits as nat, Bit::Zero),
        },
        GateView::OutputPin { bits, .. } => GateView::OutputPin {
            bits,
            value: signal::filled(bits as nat, Bit::Zero),
        },
        GateView::HexDigit { .. } => GateView::HexDigit { value: signal::filled(8, Bit::Zero) },
        _ => g,
    }
}

/// The saved state of a wiring gate.
pub open spec fn saved(g: GateView) -> Seq<u8> {
    match g {
        GateView::InputPin { value, .. } => state::bytes_of(value),
        GateView::OutputPin { value, .. } => state::bytes_of(value),
        GateView::HexDigit { value } => state::bytes_of(value),
        _ => Seq::empty(),
    }
}

/// A wiring gate after its state is restored from bytes.
pub open spec fn restored(g: GateView, s: Seq<u8>) -> GateView {
    match g {
        GateView::InputPin { bits, .. } => GateView::InputPin {
            bits,
            value: state::bits_at(s, 0, bits as nat, Bit::Zero),
        },
        GateView::OutputPin { bits, .. } => GateView::OutputPin {
            bits,
            value: state::bits_at(s, 0, bits as nat, Bit::Zero),
        },
        GateView::HexDigit { .. } => GateView::HexDigit {
            value: state::bits_at(s, 0, 8, Bit::Zero),
        },
        _ => g,
    }
}

pub open spec fn action_names(g: GateView) -> Seq<Seq<char>> {
    match g {
        GateView::InputPin { bits, .. } => if bits == 1 {
            seq!["set"@, "on"@, "off"@, "toggle"@]
        } else {
            seq!["set"@]
        },
        _ => Seq::empty(),
    }
}

/// The value that `set` gives an input pin, where its argument suits. A pin of one bit takes
/// every number but zero as `One`; a wider one takes a number's low digits.
pub open spec fn set_value(bits: u8, arg: Option<ValueView>) -> Option<Seq<Bit>> {
    match arg {
        Some(ValueView::Bool(b)) => if bits == 1 {
            Some(
                seq![
                    if b {
                        Bit::One
                    } else {
                        Bit::Zero
                    },
                ],
            )
        } else {
            None
        },
        Some(ValueView::Int(i)) => if bits == 1 {
            Some(
                seq![
                    if i != 0 {
                        Bit::One
                    } else {
                        Bit::Zero
                    },
                ],
            )
        } else {
            Some(signal::bits_of(i as int, bits as nat))
        },
        Some(ValueView::Bits(s)) => if s.len() == bits {
            Some(s)
        } else {
            None
        },
        None => None,
    }
}

/// An action on an input pin: the new value, or why there is none.
pub open spec fn pin_action(
    bits: u8,
    value: Seq<Bit>,
    name: Seq<char>,
    arg: Option<ValueView>,
) -> Result<Seq<Bit>, ActionErrorView> {
    if bits == 1 && name == "on"@ {
        Ok(seq![Bit::One])
    } else if bits == 1 && name == "off"@ {
        Ok(seq![Bit::Zero])
    } else if bits == 1 && name == "toggle"@ {
        Ok(
            seq![
                if value[0] == Bit::One {
                    Bit::Zero
                } else {
                    Bit::One
                },
            ],
        )
    } else if name == "set"@ {
        match set_value(bits, arg) {
            Some(v) => Ok(v),
            None => Err(
                ActionErrorView::InvalidArg {
                    action: "set"@,
                    reason: "expected Bool (1-bit only), Int, or "@ + text::decimal(bits as nat)
                        + "-bit Bits, got "@ + plugin_abi::arg_text(arg),
                },
            ),
        }
    } else {
        Err(ActionErrorView::UnknownAction(name))
    }
}

/// An action on a wiring gate: what becomes of it, and the action's outcome.
pub open spec fn invoked(g: GateView, name: Seq<char>, arg: Option<ValueView>) -> (
    GateView,
    Result<(), ActionErrorView>,
) {
    match g {
        GateView::InputPin { bits, value } => match pin_action(bits, value, name, arg) {
            Ok(v) => (GateView::InputPin { bits, value: v }, Ok(())),
            Err(e) => (g, Err(e)),
        },
        _ => (g, Err(ActionErrorView::UnknownAction(name))),
    }
}

/// What a readout of a wiring gate gives.
pub open spec fn readout(g: GateView, name: Seq<char>) -> Result<ValueView, Seq<char>> {
    if name == "get"@ {
        match g {
            GateView::InputPin { value, .. } => Ok(ValueView::Bits(value)),
            GateView::OutputPin { value, .. } => Ok(ValueView::Bits(value)),
            GateView::HexDigit { value } => Ok(ValueView::Bits(value)),
            _ => Err(name),
        }
    } else {
        Err(name)
    }
}

/// The configurations that a wiring gate can work with.
pub open spec fn valid(g: GateView) -> bool {
    match g {
        GateView::Constant { bits, .. } => bits <= 32,
        GateView::BitExtender { in_bits, mode, .. } => mode == ExtendMode::Sign ==> in_bits >= 1,
        _ => true,
    }
}

/// The actions that a wiring gate can perform or refuse now.
pub open spec fn can_invoke(g: GateView, name: Seq<char>) -> bool {
    match g {
        GateView::InputPin { bits, value } => {
            &&& name == "toggle"@ && bits == 1 ==> value.len() >= 1
            &&& name == "set"@ ==> bits <= 64
        },
        _ => true,
    }
}

/// The input lists that a wiring gate can be evaluated on.
pub open spec fn accepts(g: GateView, ins: Seq<Seq<Bit>>) -> bool {
    match g {
        GateView::OutputPin { bits, .. } => bits > 0 ==> ins.len() >= 1,
        _ => ins.len() >= input_count(g),
    }
}

pub open spec fn input_count(g: GateView) -> nat {
    match g {
        GateView::OutputPin { .. } => 1,
        GateView::BitExtender { mode, .. } => if mode == ExtendMode::Input {
            2
        } else {
            1
        },
        GateView::Transistor { .. } => 2,
        GateView::HexDigit { .. } => 2,
        _ => 0,
    }
}

pub open spec fn input_width(g: GateView, pin: int) -> u8 {
    match g {
        GateView::OutputPin { bits, .. } => bits,
        GateView::BitExtender { in_bits, .. } => if pin == 0 {
            in_bits
        } else {
            1
        },
        GateView::HexDigit { .. } => if pin == 0 {
            4
        } else {
            1
        },
        GateView::Transistor { bits, .. } => if pin == 0 {
            bits
        } else {
            1
        },
        _ => 0,
    }
}

pub open spec fn output_width(g: GateView) -> u8 {
    match g {
        GateView::Constant { bits, .. } => bits,
        GateView::InputPin { bits, .. } => bits,
        GateView::PullResistor { .. } => 1,
        GateView::BitExtender { out_bits, .. } => out_bits,
        GateView::Transistor { bits, .. } => bits,
        _ => 0,
    }
}

fn segments_of(v: u32) -> (r: u32)
    ensures
        r == digit_segments(v as nat),
{
    match v {
        0 => 0x1110111,
        1 => 0x0000011,
        2 => 0x0111110,
        3 => 0x0011111,
        4 => 0x1001011,
        5 => 0x1011101,
        6 => 0x1111101,
        7 => 0x0010011,
        8 => 0x1111111,
        9 => 0x1011011,
        10 => 0x1111011,
        11 => 0x1101101,
        12 => 0x1110100,
        13 => 0x0101111,
        14 => 0x1111100,
        _ => 0x1111000,
    }
}

fn segment_bit(segments: u32, place: u32) -> (r: Bit)
    requires
        place > 0,
    ensures
        r == segment(segments as nat, place as nat),
{
    if (segments / place) % 2 == 1 {
        Bit::One
    } else {
        Bit::Zero
    }
}

/// The eight lights of a hex digit display.
fn hex_digit_summary(digit: &Signal, dot: Bit) -> (r: Signal)
    ensures
        r@ == display(digit@, dot),
{
    let s: u32 = match signal_to_u32_if_defined(digit, 4) {
        Some(v) => segments_of(v),
        None => 0x0001000,
    };
    let r: Signal = vec![
        segment_bit(s, 0x10000),
        segment_bit(s, 0x10),
        segment_bit(s, 0x1),
        segment_bit(s, 0x100),
        segment_bit(s, 0x100000),
        segment_bit(s, 0x1000000),
        segment_bit(s, 0x1000),
        if dot == Bit::One {
            Bit::One
        } else {
            Bit::Zero
        },
    ];
    assert(r@ =~= display(digit@, dot));
    r
}

fn transistor_output(gate: Bit, input: &Signal, bits: u8, conducts_on: Bit) -> (r: Signal)
    ensures
        r@ == conducted(gate, input@, bits as nat, conducts_on),
{
    match gate {
        Bit::Zero | Bit::One => {
            if gate == conducts_on {
                fit(input, bits)
            } else {
                fill(Bit::Unknown, bits as usize)
            }
        },
        Bit::Unknown | Bit::Error => {
            let mut out: Signal = Vec::new();
            for i in 0..bits as usize
                invariant
                    !plugin_abi::is_level(gate),
                    out@ == conducted(gate, input@, i as nat, conducts_on),
            {
                out.push(
                    if bit_at(input, i) == Bit::Unknown {
                        Bit::Unknown
                    } else {
                        Bit::Error
                    },
                );
                assert(out@ =~= conducted(gate, input@, (i + 1) as nat, conducts_on));
            }
            out
        },
    }
}

fn extend(data: &Signal, in_bits: u8, out_bits: u8, fill: Bit) -> (r: Signal)
    ensures
        r@ == extended(data@, in_bits as nat, out_bits as nat, fill),
{
    let mut out: Signal = Vec::new();
    for i in 0..out_bits as usize
        invariant
            out@ == extended(data@, in_bits as nat, i as nat, fill),
    {
        out.push(
            if i < in_bits as usize {
                bit_at(data, i)
            } else {
                fill
            },
        );
        assert(out@ =~= extended(data@, in_bits as nat, (i + 1) as nat, fill));
    }
    out
}

fn one_bit(b: Bit) -> (r: Signal)
    ensures
        r@ == seq![b],
{
    let r: Signal = vec![b];
    assert(r@ =~= seq![b]);
    r
}

/// The value that `set` gives an input pin, where its argument suits.
fn value_to_set(bits: u8, arg: &Option<Value>) -> (r: Option<Signal>)
    requires
        bits <= 64,
    ensures
        match r {
            Some(v) => set_value(bits, plugin_abi::arg_view(*arg)) == Some(v@),
            None => set_value(bits, plugin_abi::arg_view(*arg)) is None,
        },
{
    match arg {
        Some(Value::Bool(b)) => if bits == 1 {
            Some(
                one_bit(
                    if *b {
                        Bit::One
                    } else {
                        Bit::Zero
                    },
                ),
            )
        } else {
            None
        },
        Some(Value::Int(i)) => if bits == 1 {
            Some(
                one_bit(
                    if *i != 0 {
                        Bit::One
                    } else {
                        Bit::Zero
                    },
                ),
            )
        } else {
            Some(i64_to_signal(*i, bits))
        },
        Some(Value::Bits(s)) => if s.len() == bits as usize {
            Some(s.clone())
        } else {
            None
        },
        None => None,
    }
}

impl Gate {
    pub(crate) fn init_wiring(&mut self)
        requires
            old(self)@.category() is Wiring,
        ensures
            final(self)@ == reset(old(self)@),
    {
        match self {
            Gate::InputPin { bits, value } => {
                *value = zeros(*bits);
            },
            Gate::OutputPin { bits, value } => {
                *value = zeros(*bits);
            },
            Gate::HexDigit { value } => {
                *value = zeros(8);
            },
            _ => {},
        }
    }

    pub(crate) fn input_count_wiring(&self) -> (r: usize)
        requires
            self@.category() is Wiring,
        ensures
            r == input_count(self@),
    {
        match self {
            Gate::OutputPin { .. } => 1,
            Gate::BitExtender { mode, .. } => if *mode == ExtendMode::Input {
                2
            } else {
                1
            },
            Gate::Transistor { .. } => 2,
            Gate::HexDigit { .. } => 2,
            _ => 0,
        }
    }

    pub(crate) fn input_width_wiring(&self, pin: usize) -> (r: u8)
        ensures
            r == input_width(self@, pin as int),
    {
        match self {
            Gate::OutputPin { bits, .. } => *bits,
            Gate::BitExtender { in_bits, .. } => if pin == 0 {
                *in_bits
            } else {
                1
            },
            Gate::HexDigit { .. } => if pin == 0 {
                4
            } else {
                1
            },
            Gate::Transistor { bits, .. } => if pin == 0 {
                *bits
            } else {
                1
            },
            _ => 0,
        }
    }

    pub(crate) fn output_width_wiring(&self) -> (r: u8)
        ensures
            r == output_width(self@),
    {
        match self {
            Gate::Constant { bits, .. } => *bits,
            Gate::InputPin { bits, .. } => *bits,
            Gate::PullResistor { .. } => 1,
            Gate::BitExtender { out_bits, .. } => *out_bits,
            Gate::Transistor { bits, .. } => *bits,
            _ => 0,
        }
    }

    pub(crate) fn eval_wiring(&mut self, inputs: &[Signal]) -> (out: Vec<Signal>)
        requires
            old(self)@.category() is Wiring,
            valid(old(self)@),
            accepts(old(self)@, plugin_abi::signals(inputs@)),
        ensures
            (final(self)@, plugin_abi::signals(out@)) == evaluated(
                old(self)@,
                plugin_abi::signals(inputs@),
            ),
    {
        let ghost ins = plugin_abi::signals(inputs@);
        let ghost after = evaluated(self@, ins);
        let mut out: Vec<Signal> = Vec::new();
        match self {
            Gate::Constant { bits, value } => {
                out.push(u32_to_signal(*value, *bits));
            },
            Gate::InputPin { value, .. } => {
                out.push(value.clone());
            },
            Gate::OutputPin { bits, value } => {
                *value = if *bits == 0 {
                    Vec::new()
                } else {
                    fit(&inputs[0], *bits)
                };
            },
            Gate::PullResistor { to } => {
                out.push(one_bit(*to));
            },
            Gate::BitExtender { in_bits, out_bits, mode } => {
                let fill: Bit = match mode {
                    ExtendMode::Zero => Bit::Zero,
                    ExtendMode::One => Bit::One,
                    ExtendMode::Sign => bit_at(&inputs[0], *in_bits as usize - 1),
                    ExtendMode::Input => bit_at(&inputs[1], 0),
                };
                out.push(extend(&inputs[0], *in_bits, *out_bits, fill));
            },
            Gate::HexDigit { value } => {
                *value = hex_digit_summary(&inputs[0], bit_at(&inputs[1], 0));
            },
            Gate::Transistor { bits, conducts_on } => {
                out.push(
                    transistor_output(bit_at(&inputs[1], 0), &inputs[0], *bits, *conducts_on),
                );
            },
            _ => {},
        }
        assert(self@ =~= after.0);
        assert(plugin_abi::signals(out@) =~= after.1);
        out
    }

    pub(crate) fn serialize_wiring(&self) -> (out: Vec<u8>)
        requires
            self@.category() is Wiring,
        ensures
            out@ == saved(self@),
    {
        let mut out: Vec<u8> = Vec::new();
        match self {
            Gate::InputPin { value, .. } => {
                push_bits(&mut out, value);
            },
            Gate::OutputPin { value, .. } => {
                push_bits(&mut out, value);
            },
            Gate::HexDigit { value } => {
                push_bits(&mut out, value);
            },
            _ => {},
        }
        assert(out@ =~= saved(self@));
        out
    }

    pub(crate) fn deserialize_wiring(&mut self, state: &[u8])
        requires
            old(self)@.category() is Wiring,
        ensures
            final(self)@ == restored(old(self)@, state@),
    {
        match self {
            Gate::InputPin { bits, value } => {
                *value = read_bits(state, 0, *bits as usize, Bit::Zero);
            },
            Gate::OutputPin { bits, value } => {
                *value = read_bits(state, 0, *bits as usize, Bit::Zero);
            },
            Gate::HexDigit { value } => {
                *value = read_bits(state, 0, 8, Bit::Zero);
            },
            _ => {},
        }
    }

    pub(crate) fn actions_wiring(&self) -> (r: Vec<&'static str>)
        requires
            self@.category() is Wiring,
        ensures
            plugin_abi::names(r@) == action_names(self@),
    {
        let r: Vec<&'static str> = match self {
            Gate::InputPin { bits, .. } => if *bits == 1 {
                vec!["set", "on", "off", "toggle"]
            } else {
                vec!["set"]
            },
            _ => Vec::new(),
        };
        assert(plugin_abi::names(r@) =~= action_names(self@));
        r
    }

    pub(crate) fn invoke_wiring(&mut self, name: &str, arg: Option<Value>) -> (r: Result<
        (),
        ActionError,
    >)
        requires
            old(self)@.category() is Wiring,
            can_invoke(old(self)@, name@),
        ensures
            (final(self)@, plugin_abi::action_outcome(r)) == invoked(
                old(self)@,
                name@,
                plugin_abi::arg_view(arg),
            ),
    {
        match self {
            Gate::InputPin { bits, value } => {
                proof {
                    reveal_strlit("on");
                    reveal_strlit("off");
                    reveal_strlit("toggle");
                    reveal_strlit("set");
                    assert("on"@.len() == 2 && "off"@.len() == 3 && "toggle"@.len() == 6
                        && "set"@.len() == 3);
                    assert("off"@[0] != "set"@[0]);
                }
                if *bits == 1 && text::same(name, "on") {
                    *value = one_bit(Bit::One);
                    Ok(())
                } else if *bits == 1 && text::same(name, "off") {
                    *value = one_bit(Bit::Zero);
                    Ok(())
                } else if *bits == 1 && text::same(name, "toggle") {
                    *value = one_bit(
                        if value[0] == Bit::One {
                            Bit::Zero
                        } else {
                            Bit::One
                        },
                    );
                    Ok(())
                } else if text::same(name, "set") {
                    match value_to_set(*bits, &arg) {
                        Some(v) => {
                            *value = v;
                            Ok(())
                        },
                        None => {
                            let mut reason: String =
                                "expected Bool (1-bit only), Int, or ".to_owned();
                            text::push_decimal(&mut reason, *bits as u64);
                            reason.append("-bit Bits, got ");
                            reason.append(plugin_abi::render_arg(&arg).as_str());
                            Err(ActionError::InvalidArg { action: "set".to_owned(), reason })
                        },
                    }
                } else {
                    Err(ActionError::UnknownAction(name.to_owned()))
                }
            },
            _ => Err(ActionError::UnknownAction(name.to_owned())),
        }
    }

    pub(crate) fn read_wiring(&self, name: &str) -> (r: Result<Value, ReadoutError>)
        requires
            self@.category() is Wiring,
        ensures
            plugin_abi::readout_outcome(r) == readout(self@, name@),
    {
        if text::same(name, "get") {
            match self {
                Gate::InputPin { value, .. } => {
                    return Ok(Value::Bits(value.clone()));
                },
                Gate::OutputPin { value, .. } => {
                    return Ok(Value::Bits(value.clone()));
                },
                Gate::HexDigit { value } => {
                    return Ok(Value::Bits(value.clone()));
                },
                _ => {},
            }
        }
        Err(ReadoutError::UnknownReadout(name.to_owned()))
    }
}

/// Saving a wiring gate and restoring the bytes into a gate of the same configuration gives
/// the saved gate back.
pub proof fn wiring_round_trip(g: GateView, h: GateView)
    requires
        g.category() is Wiring,
        g.widths_kept(),
        reset(g) == reset(h),
    ensures
        restored(h, saved(g)) == g,
{
    let s = saved(g);
    match g {
        GateView::InputPin { value, .. } => {
            state::bits_survive(s, 0, value, Bit::Zero);
        },
        GateView::OutputPin { value, .. } => {
            state::bits_survive(s, 0, value, Bit::Zero);
        },
        GateView::HexDigit { value } => {
            state::bits_survive(s, 0, value, Bit::Zero);
        },
        _ => {},
    }
}

/// An input pin outputs and reads back what it was set to, and keeps its width.
pub proof fn input_pin_reads_what_was_set(bits: u8, value: Seq<Bit>, arg: Option<ValueView>)
    requires
        set_value(bits, arg) is Some,
    ensures
        ({
            let g = GateView::InputPin { bits, value };
            let (after, outcome) = invoked(g, "set"@, arg);
            let v = set_value(bits, arg)->0;
            &&& outcome is Ok
            &&& readout(after, "get"@) == Ok::<ValueView, Seq<char>>(ValueView::Bits(v))
            &&& evaluated(after, Seq::empty()).1 == seq![v]
            &&& after.widths_kept()
        }),
{
    reveal_strlit("on");
    reveal_strlit("off");
    reveal_strlit("toggle");
    reveal_strlit("set");
    assert("off"@[0] != "set"@[0]);
}

/// Setting an input pin to a number spells that number modulo two to the width. A pin of one
/// bit takes every number but zero as `One`.
pub proof fn input_pin_spells_numbers(bits: u8, i: i64)
    ensures
        set_value(bits, Some(ValueView::Int(i))) is Some,
        bits != 1 && i >= 0 ==> signal::word(
            set_value(bits, Some(ValueView::Int(i)))->0,
            bits as nat,
        ) == Some((i as nat) % power2::pow2(bits as nat)),
        bits == 1 ==> set_value(bits, Some(ValueView::Int(i)))->0 == seq![
            if i != 0 {
                Bit::One
            } else {
                Bit::Zero
            },
        ],
{
    if i >= 0 {
        signal::bits_round_trip(i as nat, bits as nat);
    }
}

proof fn extended_value(data: Seq<Bit>, n: nat, m: nat, fill: Bit, k: nat)
    requires
        k <= m,
    ensures
        k <= n ==> signal::value_of(extended(data, n, m, fill), k) == signal::value_of(data, k),
        k > n && fill != Bit::One ==> signal::value_of(extended(data, n, m, fill), k)
            == signal::value_of(data, n),
        k > n && fill == Bit::One ==> signal::value_of(extended(data, n, m, fill), k)
            == signal::value_of(data, n) + power2::pow2(k) - power2::pow2(n),
    decreases k,
{
    if k > 0 {
        extended_value(data, n, m, fill, (k - 1) as nat);
        power2::lemma_pow2_unfold(k);
    }
}

/// Extending with zeros keeps the number, and extending with the sign bit keeps the number in
/// two's complement.
pub proof fn extending_keeps_the_number(in_bits: u8, out_bits: u8, data: Seq<Bit>)
    requires
        1 <= in_bits <= out_bits,
        signal::defined(data, in_bits as nat),
    ensures
        ({
            let zero = evaluated(
                GateView::BitExtender { in_bits, out_bits, mode: ExtendMode::Zero },
                seq![data],
            ).1[0];
            let sign = evaluated(
                GateView::BitExtender { in_bits, out_bits, mode: ExtendMode::Sign },
                seq![data],
            ).1[0];
            &&& signal::value_of(zero, out_bits as nat) == signal::value_of(data, in_bits as nat)
            &&& arithmetic::signed_value_of(sign, out_bits as nat) == arithmetic::signed_value_of(
                data,
                in_bits as nat,
            )
        }),
{
    let n = in_bits as nat;
    let m = out_bits as nat;
    let top = signal::bit_of(data, n - 1);
    extended_value(data, n, m, Bit::Zero, m);
    extended_value(data, n, m, top, m);
    assert(crate::plugin_abi::is_level(top));
}

/// The seven segments of a display, without its dot.
pub open spec fn segments_shown(digit: Seq<Bit>, dot: Bit) -> Seq<Bit> {
    display(digit, dot).take(7)
}

/// The segments with these numbers lit, and no other.
pub open spec fn lit(segments: Set<int>) -> Seq<Bit> {
    Seq::new(
        7,
        |i: int|
            if segments.contains(i) {
                Bit::One
            } else {
                Bit::Zero
            },
    )
}

/// No two digits light the same segments, and every digit lights the top or one of the two on
/// the right.
proof fn digit_segments_differ(v: nat, w: nat)
    requires
        v < 16,
        w < 16,
    ensures
        ({
            let a = digit_segments(v);
            let b = digit_segments(w);
            &&& v != w ==> !(segment(a, 0x10000) == segment(b, 0x10000) && segment(a, 0x10)
                == segment(b, 0x10) && segment(a, 0x1) == segment(b, 0x1) && segment(a, 0x100)
                == segment(b, 0x100) && segment(a, 0x100000) == segment(b, 0x100000) && segment(
                a,
                0x1000000,
            ) == segment(b, 0x1000000) && segment(a, 0x1000) == segment(b, 0x1000))
            &&& segment(a, 0x10000) == Bit::One || segment(a, 0x10) == Bit::One || segment(a, 0x1)
                == Bit::One
        }),
{
}

/// A display tells digits apart: two fully defined digits show the same segments only where
/// they are the same number, none of them looks like the dash of an undefined digit, and the
/// eighth light is lit exactly where the dot reads `One`.
pub proof fn digits_look_different(a: Seq<Bit>, b: Seq<Bit>, c: Seq<Bit>, x: Bit, y: Bit, z: Bit)
    requires
        signal::defined(a, 4),
        signal::defined(b, 4),
        !signal::defined(c, 4),
    ensures
        display(a, x).len() == 8,
        display(a, x)[7] == Bit::One <==> x == Bit::One,
        display(c, z)[7] == Bit::One <==> z == Bit::One,
        segments_shown(a, x) == segments_shown(b, y) <==> signal::value_of(a, 4)
            == signal::value_of(b, 4),
        segments_shown(c, z) == lit(set![6]),
        segments_shown(a, x) != segments_shown(c, z),
{
    signal::value_bound(a, 4);
    signal::value_bound(b, 4);
    power2::lemma2_to64();
    let v = signal::value_of(a, 4);
    let w = signal::value_of(b, 4);
    digit_segments_differ(v, w);
    let s = segments_shown(a, x);
    let t = segments_shown(b, y);
    let d = segments_shown(c, z);
    if v == w {
        assert(s =~= t);
    } else if s == t {
        assert(s[0] == t[0] && s[1] == t[1] && s[2] == t[2] && s[3] == t[3] && s[4] == t[4] && s[5]
            == t[5] && s[6] == t[6]);
    }
    assert(d =~= lit(set![6]));
    if s == d {
        assert(s[0] == d[0] && s[1] == d[1] && s[2] == d[2]);
    }
}

/// Zero lights all segments but the middle one, one the two on the right, and eight all.
pub proof fn digits_shown(digit: Seq<Bit>, dot: Bit)
    requires
        signal::defined(digit, 4),
    ensures
        signal::value_of(digit, 4) == 0 ==> segments_shown(digit, dot) == lit(
            set![0, 1, 2, 3, 4, 5],
        ),
        signal::value_of(digit, 4) == 1 ==> segments_shown(digit, dot) == lit(set![1, 2]),
        signal::value_of(digit, 4) == 8 ==> segments_shown(digit, dot) == lit(
            set![0, 1, 2, 3, 4, 5, 6],
        ),
{
    let s = segments_shown(digit, dot);
    if signal::value_of(digit, 4) == 0 {
        assert(s =~= lit(set![0, 1, 2, 3, 4, 5]));
    }
    if signal::value_of(digit, 4) == 1 {
        assert(s =~= lit(set![1, 2]));
    }
    if signal::value_of(digit, 4) == 8 {
        assert(s =~= lit(set![0, 1, 2, 3, 4, 5, 6]));
    }
}

/// A display whose digit is not fully defined shows a dash: of the seven segments the middle
/// one alone.
pub proof fn undefined_digits_show_a_dash(value: Seq<Bit>, digit: Seq<Bit>, dot: Seq<Bit>)
    requires
        !signal::defined(digit, 4),
    ensures
        evaluated(GateView::HexDigit { value }, seq![digit, dot]).0 matches GateView::HexDigit {
            value: after,
        } && after.len() == 8 && forall|i: int|
            0 <= i < 7 ==> #[trigger] after[i] == (if i == 6 {
                Bit::One
            } else {
                Bit::Zero
            }),
{
}

/// With an undefined gate pin, a transistor turns a fully defined input into `Error` on every
/// bit.
pub proof fn undefined_transistor_errs(bits: u8, conducts_on: Bit, gate: Bit, data: Seq<Bit>)
    requires
        !plugin_abi::is_level(gate),
        signal::defined(data, bits as nat),
    ensures
        evaluated(GateView::Transistor { bits, conducts_on }, seq![data, seq![gate]]).1
            == seq![signal::filled(bits as nat, Bit::Error)],
{
    assert forall|i: int| 0 <= i < bits implies signal::bit_of(data, i) != Bit::Unknown by {
        assert(plugin_abi::is_level(signal::bit_of(data, i)));
    }
    assert(conducted(gate, data, bits as nat, conducts_on) =~= signal::filled(
        bits as nat,
        Bit::Error,
    ));
}

} // verus!
