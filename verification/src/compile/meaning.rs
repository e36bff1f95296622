//! What components mean: what gate a component of a type becomes by what its attributes say.
use vstd::prelude::*;
use vstd::arithmetic::power2;
use crate::compile::error::Problem;
use crate::compile::parts;
use crate::compile::parts::Part;
use crate::compile::ports::PortWidths;
use crate::components::{arithmetic, signal};
use crate::components::{DotMatrixInput, ExtendMode, GateView, Trigger};
use crate::file_format::{AttrValue, ComponentInstance};
use crate::netlist::TemplateNode;
use crate::plugin_abi::Bit;

verus! {

/// An attribute is given as an integer, or it is not and the default stands for it.
pub open spec fn reads_int(comp: ComponentInstance, key: Seq<char>, default: i64, v: i64) -> bool {
    ||| comp.attrs@.contains_key(key) && comp.attrs@[key] == AttrValue::Int(v)
    ||| !(comp.attrs@.contains_key(key) && comp.attrs@[key] is Int) && v == default
}

/// An attribute is given as a text, or it is not and the default stands for it.
pub open spec fn reads_text(
    comp: ComponentInstance,
    key: Seq<char>,
    default: Seq<char>,
    v: Seq<char>,
) -> bool {
    ||| comp.attrs@.contains_key(key) && (comp.attrs@[key] matches AttrValue::Str(s) && s@
        == v)
    ||| !(comp.attrs@.contains_key(key) && comp.attrs@[key] is Str) && v == default
}

/// An attribute is given as `true` or `false`, or it is not and the default stands for it.
pub open spec fn reads_flag(comp: ComponentInstance, key: Seq<char>, default: bool, v: bool) -> bool {
    ||| comp.attrs@.contains_key(key) && comp.attrs@[key] == AttrValue::Bool(v)
    ||| !(comp.attrs@.contains_key(key) && comp.attrs@[key] is Bool) && v == default
}

/// The component becomes a gate with this initial state.
pub open spec fn becomes(
    table: Map<Seq<char>, PortWidths>,
    comp: ComponentInstance,
    g: GateView,
) -> bool {
    parts::part_of(table, comp) matches Ok(Part::Leaf(node)) && node.initial() == g
}

/// The component is refused.
pub open spec fn refused(
    table: Map<Seq<char>, PortWidths>,
    comp: ComponentInstance,
    problem: Problem,
) -> bool {
    parts::part_of(table, comp) == Err::<Part, Problem>(problem)
}

/// How the names of the component types begin, and how long they are.
proof fn spelled()
    ensures
        "core:AndGate"@.len() == 12 && "core:AndGate"@[5] == 'A' && "core:AndGate"@[6] == 'n' && "core:AndGate"@[7] == 'd',
        "core:OrGate"@.len() == 11 && "core:OrGate"@[5] == 'O' && "core:OrGate"@[6] == 'r' && "core:OrGate"@[7] == 'G',
        "core:NandGate"@.len() == 13 && "core:NandGate"@[5] == 'N' && "core:NandGate"@[6] == 'a' && "core:NandGate"@[7] == 'n',
        "core:NorGate"@.len() == 12 && "core:NorGate"@[5] == 'N' && "core:NorGate"@[6] == 'o' && "core:NorGate"@[7] == 'r',
        "core:XorGate"@.len() == 12 && "core:XorGate"@[5] == 'X' && "core:XorGate"@[6] == 'o' && "core:XorGate"@[7] == 'r',
        "core:XnorGate"@.len() == 13 && "core:XnorGate"@[5] == 'X' && "core:XnorGate"@[6] == 'n' && "core:XnorGate"@[7] == 'o',
        "core:NotGate"@.len() == 12 && "core:NotGate"@[5] == 'N' && "core:NotGate"@[6] == 'o' && "core:NotGate"@[7] == 't',
        "core:Buffer"@.len() == 11 && "core:Buffer"@[5] == 'B' && "core:Buffer"@[6] == 'u' && "core:Buffer"@[7] == 'f',
        "core:ControlledBuffer"@.len() == 21 && "core:ControlledBuffer"@[5] == 'C' && "core:ControlledBuffer"@[6] == 'o' && "core:ControlledBuffer"@[7] == 'n',
        "core:Constant"@.len() == 13 && "core:Constant"@[5] == 'C' && "core:Constant"@[6] == 'o' && "core:Constant"@[7] == 'n',
        "core:Ground"@.len() == 11 && "core:Ground"@[5] == 'G' && "core:Ground"@[6] == 'r' && "core:Ground"@[7] == 'o',
        "core:Power"@.len() == 10 && "core:Power"@[5] == 'P' && "core:Power"@[6] == 'o' && "core:Power"@[7] == 'w',
        "core:InputPin"@.len() == 13 && "core:InputPin"@[5] == 'I' && "core:InputPin"@[6] == 'n' && "core:InputPin"@[7] == 'p',
        "core:OutputPin"@.len() == 14 && "core:OutputPin"@[5] == 'O' && "core:OutputPin"@[6] == 'u' && "core:OutputPin"@[7] == 't',
        "core:Probe"@.len() == 10 && "core:Probe"@[5] == 'P' && "core:Probe"@[6] == 'r' && "core:Probe"@[7] == 'o',
        "core:PullResistor"@.len() == 17 && "core:PullResistor"@[5] == 'P' && "core:PullResistor"@[6] == 'u' && "core:PullResistor"@[7] == 'l',
        "core:Led"@.len() == 8 && "core:Led"@[5] == 'L' && "core:Led"@[6] == 'e' && "core:Led"@[7] == 'd',
        "core:Button"@.len() == 11 && "core:Button"@[5] == 'B' && "core:Button"@[6] == 'u' && "core:Button"@[7] == 't',
        "core:BitExtender"@.len() == 16 && "core:BitExtender"@[5] == 'B' && "core:BitExtender"@[6] == 'i' && "core:BitExtender"@[7] == 't',
        "core:HexDigit"@.len() == 13 && "core:HexDigit"@[5] == 'H' && "core:HexDigit"@[6] == 'e' && "core:HexDigit"@[7] == 'x',
        "core:Transistor"@.len() == 15 && "core:Transistor"@[5] == 'T' && "core:Transistor"@[6] == 'r' && "core:Transistor"@[7] == 'a',
        "core:Clock"@.len() == 10 && "core:Clock"@[5] == 'C' && "core:Clock"@[6] == 'l' && "core:Clock"@[7] == 'o',
        "core:Register"@.len() == 13 && "core:Register"@[5] == 'R' && "core:Register"@[6] == 'e' && "core:Register"@[7] == 'g',
        "core:Multiplexer"@.len() == 16 && "core:Multiplexer"@[5] == 'M' && "core:Multiplexer"@[6] == 'u' && "core:Multiplexer"@[7] == 'l',
        "core:Demultiplexer"@.len() == 18 && "core:Demultiplexer"@[5] == 'D' && "core:Demultiplexer"@[6] == 'e' && "core:Demultiplexer"@[7] == 'm',
        "core:Decoder"@.len() == 12 && "core:Decoder"@[5] == 'D' && "core:Decoder"@[6] == 'e' && "core:Decoder"@[7] == 'c',
        "core:PriorityEncoder"@.len() == 20 && "core:PriorityEncoder"@[5] == 'P' && "core:PriorityEncoder"@[6] == 'r' && "core:PriorityEncoder"@[7] == 'i',
        "core:Adder"@.len() == 10 && "core:Adder"@[5] == 'A' && "core:Adder"@[6] == 'd' && "core:Adder"@[7] == 'd',
        "core:Subtractor"@.len() == 15 && "core:Subtractor"@[5] == 'S' && "core:Subtractor"@[6] == 'u' && "core:Subtractor"@[7] == 'b',
        "core:Comparator"@.len() == 15 && "core:Comparator"@[5] == 'C' && "core:Comparator"@[6] == 'o' && "core:Comparator"@[7] == 'm',
        "core:DotMatrix"@.len() == 14 && "core:DotMatrix"@[5] == 'D' && "core:DotMatrix"@[6] == 'o' && "core:DotMatrix"@[7] == 't',
        "core:Tty"@.len() == 8 && "core:Tty"@[5] == 'T' && "core:Tty"@[6] == 't' && "core:Tty"@[7] == 'y',
        "core:Keyboard"@.len() == 13 && "core:Keyboard"@[5] == 'K' && "core:Keyboard"@[6] == 'e' && "core:Keyboard"@[7] == 'y',
        "core:Splitter"@.len() == 13 && "core:Splitter"@[5] == 'S' && "core:Splitter"@[6] == 'p' && "core:Splitter"@[7] == 'l',
        "core:circuit/"@.len() == 13 && "core:circuit/"@[5] == 'c',
{
    reveal_strlit("core:AndGate");
    reveal_strlit("core:OrGate");
    reveal_strlit("core:NandGate");
    reveal_strlit("core:NorGate");
    reveal_strlit("core:XorGate");
    reveal_strlit("core:XnorGate");
    reveal_strlit("core:NotGate");
    reveal_strlit("core:Buffer");
    reveal_strlit("core:ControlledBuffer");
    reveal_strlit("core:Constant");
    reveal_strlit("core:Ground");
    reveal_strlit("core:Power");
    reveal_strlit("core:InputPin");
    reveal_strlit("core:OutputPin");
    reveal_strlit("core:Probe");
    reveal_strlit("core:PullResistor");
    reveal_strlit("core:Led");
    reveal_strlit("core:Button");
    reveal_strlit("core:BitExtender");
    reveal_strlit("core:HexDigit");
    reveal_strlit("core:Transistor");
    reveal_strlit("core:Clock");
    reveal_strlit("core:Register");
    reveal_strlit("core:Multiplexer");
    reveal_strlit("core:Demultiplexer");
    reveal_strlit("core:Decoder");
    reveal_strlit("core:PriorityEncoder");
    reveal_strlit("core:Adder");
    reveal_strlit("core:Subtractor");
    reveal_strlit("core:Comparator");
    reveal_strlit("core:DotMatrix");
    reveal_strlit("core:Tty");
    reveal_strlit("core:Keyboard");
    reveal_strlit("core:Splitter");
    reveal_strlit("core:circuit/");
}

/// A component whose type is not that of an instance.
proof fn no_instance(comp: ComponentInstance)
    requires
        comp.type_@.len() > 5,
        comp.type_@[5] != 'c',
    ensures
        parts::instance_name(comp.type_@) is None,
{
    spelled();
    if "core:circuit/"@.is_prefix_of(comp.type_@) {
        assert(comp.type_@.subrange(0, 13)[5] == comp.type_@[5]);
    }
}

/// A comparator whose mode is `unsigned` compares the numbers on its inputs, and one whose mode
/// is `twosComplement` or missing the numbers with the top bit counted negative. Exactly one of
/// its outputs reads `One`: that for greater, equal or less.
pub proof fn comparators_compare_as_their_mode_says(
    table: Map<Seq<char>, PortWidths>,
    comp: ComponentInstance,
    width: i64,
    a: Seq<Bit>,
    b: Seq<Bit>,
)
    requires
        comp.type_@ == "core:Comparator"@,
        reads_int(comp, "width"@, 1, width),
        1 <= width <= 32,
        a.len() == width,
        b.len() == width,
        forall|i: int| 0 <= i < width ==> (#[trigger] a[i]) == Bit::Zero || a[i] == Bit::One,
        forall|i: int| 0 <= i < width ==> (#[trigger] b[i]) == Bit::Zero || b[i] == Bit::One,
    ensures
        ({
            let n = width as nat;
            let signed = reads_text(comp, "mode"@, "twosComplement"@, "twosComplement"@);
            let unsigned = reads_text(comp, "mode"@, "twosComplement"@, "unsigned"@);
            let x = signal::value_of(a, n) - (if signed && a.last() == Bit::One {
                power2::pow2(n) as int
            } else {
                0int
            });
            let y = signal::value_of(b, n) - (if signed && b.last() == Bit::One {
                power2::pow2(n) as int
            } else {
                0int
            });
            &&& signed || unsigned ==> (parts::part_of(table, comp) matches Ok(Part::Leaf(node)) && ({
                let out = node.initial().eval(seq![a, b]).1;
                &&& out.len() == 3 && out[0].len() == 1 && out[1].len() == 1 && out[2].len() == 1
                &&& out[0][0] == (if x > y {
                    Bit::One
                } else {
                    Bit::Zero
                })
                &&& out[1][0] == (if x == y {
                    Bit::One
                } else {
                    Bit::Zero
                })
                &&& out[2][0] == (if x < y {
                    Bit::One
                } else {
                    Bit::Zero
                })
            }))
            &&& !signed && !unsigned ==> parts::part_of(table, comp) is Err
        }),
{
    spelled();
    no_instance(comp);
    reveal_strlit("twosComplement");
    reveal_strlit("unsigned");
    signal::bits_have_positions(a, width as nat, 0, Bit::Zero);
    signal::bits_have_positions(b, width as nat, 0, Bit::Zero);
    arithmetic::comparator_compares(width as u8, true, a, b);
    arithmetic::comparator_compares(width as u8, false, a, b);
}

/// A logic component becomes a gate of its name, with the width and the number of inputs that
/// it says, one bit and two inputs where it does not.
pub proof fn logic_components(
    table: Map<Seq<char>, PortWidths>,
    comp: ComponentInstance,
    width: i64,
    count: i64,
)
    requires
        reads_int(comp, "width"@, 1, width),
        reads_int(comp, "inputs"@, 2, count),
        1 <= width <= 32,
        2 <= count <= 32,
    ensures
        ({
            let bits = width as u8;
            let inputs = count as usize;
            let t = comp.type_@;
            &&& t == "core:AndGate"@ ==> becomes(table, comp, (GateView::And { bits, inputs }))
            &&& t == "core:OrGate"@ ==> becomes(table, comp, (GateView::Or { bits, inputs }))
            &&& t == "core:NandGate"@ ==> becomes(table, comp, (GateView::Nand { bits, inputs }))
            &&& t == "core:NorGate"@ ==> becomes(table, comp, (GateView::Nor { bits, inputs }))
            &&& t == "core:XorGate"@ ==> becomes(table, comp, (GateView::Xor { bits, inputs }))
            &&& t == "core:XnorGate"@ ==> becomes(table, comp, (GateView::Xnor { bits, inputs }))
            &&& t == "core:NotGate"@ ==> becomes(table, comp, (GateView::Not { bits }))
            &&& t == "core:Buffer"@ ==> becomes(table, comp, (GateView::Buffer { bits }))
            &&& t == "core:ControlledBuffer"@ ==> becomes(
                table,
                comp,
                (GateView::ControlledBuffer { bits }),
            )
        }),
{
    spelled();
    if comp.type_@.len() > 5 && comp.type_@[5] != 'c' {
        no_instance(comp);
    }
}

/// A width from 1 to 32 and a number of inputs from 2 to 32 are taken, and others refused with
/// the number that was given.
pub proof fn widths_and_inputs_have_limits(
    table: Map<Seq<char>, PortWidths>,
    comp: ComponentInstance,
    width: i64,
    count: i64,
)
    requires
        comp.type_@ == "core:AndGate"@ || comp.type_@ == "core:OrGate"@ || comp.type_@
            == "core:NandGate"@ || comp.type_@ == "core:NorGate"@ || comp.type_@ == "core:XorGate"@
            || comp.type_@ == "core:XnorGate"@,
        reads_int(comp, "width"@, 1, width),
        reads_int(comp, "inputs"@, 2, count),
    ensures
        width < 1 || width > 32 ==> refused(table, comp, Problem::InvalidWidth(width)),
        1 <= width <= 32 && (count < 2 || count > 32) ==> refused(
            table,
            comp,
            Problem::InvalidInputCount(count),
        ),
        1 <= width <= 32 && 2 <= count <= 32 ==> parts::part_of(table, comp) is Ok,
{
    spelled();
    no_instance(comp);
}

/// A register waits for the edge or the level that its trigger names, a rising edge where it
/// names none.
pub proof fn register_components(
    table: Map<Seq<char>, PortWidths>,
    comp: ComponentInstance,
    width: i64,
    named: Seq<char>,
)
    requires
        comp.type_@ == "core:Register"@,
        reads_int(comp, "width"@, 1, width),
        1 <= width <= 32,
        reads_text(comp, "trigger"@, "rising"@, named),
    ensures
        ({
            let bits = width as u8;
            let value = 0u32;
            let last_clock = Bit::Zero;
            &&& named == "rising"@ ==> becomes(
                table,
                comp,
                (GateView::Register { bits, trigger: Trigger::Rising, value, last_clock }),
            )
            &&& named == "falling"@ ==> becomes(
                table,
                comp,
                (GateView::Register { bits, trigger: Trigger::Falling, value, last_clock }),
            )
            &&& named == "high"@ ==> becomes(
                table,
                comp,
                (GateView::Register { bits, trigger: Trigger::High, value, last_clock }),
            )
            &&& named == "low"@ ==> becomes(
                table,
                comp,
                (GateView::Register { bits, trigger: Trigger::Low, value, last_clock }),
            )
            &&& named != "rising"@ && named != "falling"@ && named != "high"@ && named != "low"@
                ==> refused(table, comp, Problem::InvalidTrigger(named))
        }),
{
    spelled();
    no_instance(comp);
    reveal_strlit("rising");
    reveal_strlit("falling");
    reveal_strlit("high");
    reveal_strlit("low");
    assert("rising"@.len() == 6 && "falling"@.len() == 7 && "high"@.len() == 4 && "low"@.len()
        == 3);
}

/// A clock is high and low as long as it says, one tick each where it does not; a phase of less
/// than one tick is refused. It starts untoggled and low.
pub proof fn clock_components(
    table: Map<Seq<char>, PortWidths>,
    comp: ComponentInstance,
    high: i64,
    low: i64,
)
    requires
        comp.type_@ == "core:Clock"@,
        reads_int(comp, "highDuration"@, 1, high),
        reads_int(comp, "lowDuration"@, 1, low),
    ensures
        high >= 1 && low >= 1 ==> becomes(
            table,
            comp,
            (GateView::Clock {
                high: high as u64,
                low: low as u64,
                clicks: 0,
                sending: Bit::Zero,
            }),
        ),
        high < 1 ==> refused(table, comp, Problem::InvalidClockDuration("highDuration"@, high)),
        high >= 1 && low < 1 ==> refused(
            table,
            comp,
            Problem::InvalidClockDuration("lowDuration"@, low),
        ),
{
    spelled();
    no_instance(comp);
}

/// A plexer has the widths that it says, an enable pin unless it says otherwise, floats where it
/// is disabled unless it says `0`, and drives its other outputs unless it says that it is
/// tristate.
pub proof fn plexer_components(
    table: Map<Seq<char>, PortWidths>,
    comp: ComponentInstance,
    width: i64,
    select: i64,
    has_enable: bool,
    tristate: bool,
    disabled: Seq<char>,
)
    requires
        reads_int(comp, "width"@, 1, width),
        reads_int(comp, "select"@, 1, select),
        reads_flag(comp, "enable"@, true, has_enable),
        reads_flag(comp, "tristate"@, false, tristate),
        reads_text(comp, "disabled"@, "Z"@, disabled),
        1 <= width <= 32,
    ensures
        ({
            let bits = width as u8;
            let select_bits = select as u8;
            let disabled_zero = disabled == "0"@;
            let t = comp.type_@;
            let plexer = t == "core:Multiplexer"@ || t == "core:Demultiplexer"@ || t
                == "core:Decoder"@ || t == "core:PriorityEncoder"@;
            let known = disabled == "0"@ || disabled == "Z"@;
            &&& 1 <= select <= 5 && known ==> {
                &&& t == "core:Multiplexer"@ ==> becomes(
                    table,
                    comp,
                    (GateView::Mux { bits, select_bits, has_enable, disabled_zero }),
                )
                &&& t == "core:Demultiplexer"@ ==> becomes(
                    table,
                    comp,
                    (GateView::Demux { bits, select_bits, has_enable, disabled_zero, tristate }),
                )
                &&& t == "core:Decoder"@ ==> becomes(
                    table,
                    comp,
                    (GateView::Decoder { select_bits, has_enable, disabled_zero, tristate }),
                )
                &&& t == "core:PriorityEncoder"@ ==> becomes(
                    table,
                    comp,
                    (GateView::PriorityEncoder { select_bits, disabled_zero }),
                )
            }
            &&& plexer && (select < 1 || select > 5) ==> refused(
                table,
                comp,
                Problem::InvalidSelectWidth(select),
            )
            &&& plexer && 1 <= select <= 5 && !known ==> refused(
                table,
                comp,
                Problem::InvalidDisabledOption(disabled),
            )
        }),
{
    spelled();
    if comp.type_@.len() > 5 && comp.type_@[5] != 'c' {
        no_instance(comp);
    }
    reveal_strlit("Z");
    reveal_strlit("0");
    assert("Z"@[0] != "0"@[0]);
}

/// An adder and a subtractor have the width that they say.
pub proof fn adder_components(
    table: Map<Seq<char>, PortWidths>,
    comp: ComponentInstance,
    width: i64,
)
    requires
        reads_int(comp, "width"@, 1, width),
        1 <= width <= 32,
    ensures
        comp.type_@ == "core:Adder"@ ==> becomes(
            table,
            comp,
            (GateView::Adder { bits: width as u8 }),
        ),
        comp.type_@ == "core:Subtractor"@ ==> becomes(
            table,
            comp,
            (GateView::Subtractor { bits: width as u8 }),
        ),
{
    spelled();
    if comp.type_@.len() > 5 && comp.type_@[5] != 'c' {
        no_instance(comp);
    }
}

/// Sources and sinks: ground drives zeros and power ones on every bit, a constant its value, and
/// a pull resistor the level that it names, zero where it names none. A button is a pin of one
/// bit, and a light and a probe are output pins.
pub proof fn source_components(
    table: Map<Seq<char>, PortWidths>,
    comp: ComponentInstance,
    width: i64,
    value: i64,
    pull: Seq<char>,
    ins: Seq<Seq<Bit>>,
)
    requires
        reads_int(comp, "width"@, 1, width),
        reads_int(comp, "value"@, 0, value),
        reads_text(comp, "pull"@, "0"@, pull),
        1 <= width <= 32,
        0 <= value <= u32::MAX,
    ensures
        ({
            let bits = width as u8;
            let t = comp.type_@;
            let zeros = signal::filled(bits as nat, Bit::Zero);
            &&& t == "core:Constant"@ ==> becomes(
                table,
                comp,
                (GateView::Constant { bits, value: value as u32 }),
            )
            &&& t == "core:Ground"@ ==> becomes(table, comp, (GateView::Constant { bits, value: 0 }))
            &&& t == "core:Power"@ ==> becomes(
                table,
                comp,
                (GateView::Constant { bits, value: (power2::pow2(bits as nat) - 1) as u32 }),
            )
            &&& t == "core:InputPin"@ ==> becomes(
                table,
                comp,
                (GateView::InputPin { bits, value: zeros }),
            )
            &&& t == "core:OutputPin"@ || t == "core:Probe"@ ==> becomes(
                table,
                comp,
                (GateView::OutputPin { bits, value: zeros }),
            )
            &&& t == "core:Button"@ ==> becomes(
                table,
                comp,
                (GateView::InputPin { bits: 1, value: signal::filled(1, Bit::Zero) }),
            )
            &&& t == "core:Led"@ ==> becomes(
                table,
                comp,
                (GateView::OutputPin { bits: 1, value: signal::filled(1, Bit::Zero) }),
            )
            &&& t == "core:PullResistor"@ && pull == "0"@ ==> becomes(
                table,
                comp,
                (GateView::PullResistor { to: Bit::Zero }),
            )
            &&& t == "core:PullResistor"@ && pull == "1"@ ==> becomes(
                table,
                comp,
                (GateView::PullResistor { to: Bit::One }),
            )
            &&& t == "core:PullResistor"@ && pull == "X"@ ==> becomes(
                table,
                comp,
                (GateView::PullResistor { to: Bit::Error }),
            )
            &&& t == "core:PullResistor"@ && pull != "0"@ && pull != "1"@ && pull != "X"@
                ==> refused(table, comp, Problem::InvalidPullTarget(pull))
            &&& t == "core:HexDigit"@ ==> becomes(
                table,
                comp,
                (GateView::HexDigit { value: signal::filled(8, Bit::Zero) }),
            )
        }),
{
    spelled();
    if comp.type_@.len() > 5 && comp.type_@[5] != 'c' {
        no_instance(comp);
    }
    reveal_strlit("0");
    reveal_strlit("1");
    reveal_strlit("X");
    assert("0"@[0] != "1"@[0] && "0"@[0] != "X"@[0] && "1"@[0] != "X"@[0]);
}

/// A bit extender fills up with what its type names, zeros where it names none, from 8 to 16 bits
/// where it says no widths. A transistor of type `p` conducts on `Zero` and one of type `n` on
/// `One`; it is of type `p` where it says nothing.
pub proof fn extender_and_transistor_components(
    table: Map<Seq<char>, PortWidths>,
    comp: ComponentInstance,
    width: i64,
    narrow: i64,
    wide: i64,
    extends: Seq<char>,
    conducts: Seq<char>,
)
    requires
        reads_int(comp, "width"@, 1, width),
        reads_int(comp, "in_width"@, 8, narrow),
        reads_int(comp, "out_width"@, 16, wide),
        reads_text(comp, "type"@, "zero"@, extends),
        reads_text(comp, "type"@, "p"@, conducts),
        1 <= width <= 32,
        1 <= narrow <= 32,
        1 <= wide <= 32,
    ensures
        ({
            let bits = width as u8;
            let in_bits = narrow as u8;
            let out_bits = wide as u8;
            let t = comp.type_@;
            &&& t == "core:BitExtender"@ && extends == "zero"@ ==> becomes(
                table,
                comp,
                (GateView::BitExtender { in_bits, out_bits, mode: ExtendMode::Zero }),
            )
            &&& t == "core:BitExtender"@ && extends == "one"@ ==> becomes(
                table,
                comp,
                (GateView::BitExtender { in_bits, out_bits, mode: ExtendMode::One }),
            )
            &&& t == "core:BitExtender"@ && extends == "sign"@ ==> becomes(
                table,
                comp,
                (GateView::BitExtender { in_bits, out_bits, mode: ExtendMode::Sign }),
            )
            &&& t == "core:BitExtender"@ && extends == "input"@ ==> becomes(
                table,
                comp,
                (GateView::BitExtender { in_bits, out_bits, mode: ExtendMode::Input }),
            )
            &&& t == "core:Transistor"@ && conducts == "p"@ ==> becomes(
                table,
                comp,
                (GateView::Transistor { bits, conducts_on: Bit::Zero }),
            )
            &&& t == "core:Transistor"@ && conducts == "n"@ ==> becomes(
                table,
                comp,
                (GateView::Transistor { bits, conducts_on: Bit::One }),
            )
            &&& t == "core:Transistor"@ && conducts != "p"@ && conducts != "n"@ ==> refused(
                table,
                comp,
                Problem::InvalidTransistorType(conducts),
            )
        }),
{
    spelled();
    if comp.type_@.len() > 5 && comp.type_@[5] != 'c' {
        no_instance(comp);
    }
    reveal_strlit("zero");
    reveal_strlit("one");
    reveal_strlit("sign");
    reveal_strlit("input");
    reveal_strlit("p");
    reveal_strlit("n");
    assert("zero"@[0] != "sign"@[0] && "p"@[0] != "n"@[0]);
    assert("zero"@.len() == 4 && "one"@.len() == 3 && "sign"@.len() == 4 && "input"@.len() == 5);
}

/// A dot matrix is driven by columns, by rows or by selection as it says, by columns where it
/// does not, and has five columns and seven rows where it says no size.
pub proof fn dot_matrix_components(
    table: Map<Seq<char>, PortWidths>,
    comp: ComponentInstance,
    across: i64,
    down: i64,
    driven: Seq<char>,
)
    requires
        comp.type_@ == "core:DotMatrix"@,
        reads_int(comp, "matrixcols"@, 5, across),
        reads_int(comp, "matrixrows"@, 7, down),
        reads_text(comp, "inputtype"@, "column"@, driven),
        1 <= across <= 32,
        1 <= down <= 32,
    ensures
        ({
            let cols = across as u8;
            let rows = down as u8;
            let grid = signal::filled((rows as nat) * (cols as nat), Bit::Unknown);
            &&& driven == "column"@ ==> becomes(
                table,
                comp,
                (GateView::DotMatrix { rows, cols, input: DotMatrixInput::Column, grid }),
            )
            &&& driven == "row"@ ==> becomes(
                table,
                comp,
                (GateView::DotMatrix { rows, cols, input: DotMatrixInput::Row, grid }),
            )
            &&& driven == "select"@ ==> becomes(
                table,
                comp,
                (GateView::DotMatrix { rows, cols, input: DotMatrixInput::Select, grid }),
            )
        }),
{
    spelled();
    no_instance(comp);
    reveal_strlit("column");
    reveal_strlit("row");
    reveal_strlit("select");
    assert("column"@[0] != "select"@[0] && "row"@.len() == 3 && "column"@.len() == 6
        && "select"@.len() == 6);
}

/// A terminal and a keyboard have the size that they say, 32 by 8 and 32 characters where they
/// do not, and wait for the edge that their trigger names, a rising one where it names none. A
/// keyboard starts empty.
pub proof fn terminal_components(
    table: Map<Seq<char>, PortWidths>,
    comp: ComponentInstance,
    across: i64,
    down: i64,
    length: i64,
    named: Seq<char>,
)
    requires
        reads_int(comp, "cols"@, 32, across),
        reads_int(comp, "rows"@, 8, down),
        reads_int(comp, "buflen"@, 32, length),
        reads_text(comp, "trigger"@, "rising"@, named),
        1 <= across <= 120,
        1 <= down <= 48,
        1 <= length <= 256,
    ensures
        ({
            let t = comp.type_@;
            let trigger = if named == "rising"@ {
                Trigger::Rising
            } else {
                Trigger::Falling
            };
            let known = named == "rising"@ || named == "falling"@;
            &&& t == "core:Tty"@ && known ==> (parts::part_of(table, comp) matches Ok(
                Part::Leaf(TemplateNode::Tty { cols, rows, trigger: waits }),
            ) && cols == across && rows == down && waits == trigger)
            &&& t == "core:Keyboard"@ && known ==> becomes(
                table,
                comp,
                (GateView::Keyboard {
                    capacity: length as u16,
                    trigger,
                    last_clock: Bit::Unknown,
                    buffer: Seq::empty(),
                    cursor: 0,
                }),
            )
            &&& (t == "core:Tty"@ || t == "core:Keyboard"@) && !known ==> refused(
                table,
                comp,
                Problem::InvalidTrigger(named),
            )
        }),
{
    spelled();
    if comp.type_@.len() > 5 && comp.type_@[5] != 'c' {
        no_instance(comp);
    }
    reveal_strlit("rising");
    reveal_strlit("falling");
    assert("rising"@.len() == 6 && "falling"@.len() == 7);
}

/// What devices refuse: a way to extend that there is not, a width, a size or a length that is
/// out of range, and a way to drive a dot matrix that there is not.
pub proof fn devices_have_limits(
    table: Map<Seq<char>, PortWidths>,
    comp: ComponentInstance,
    narrow: i64,
    wide: i64,
    extends: Seq<char>,
    across: i64,
    down: i64,
    driven: Seq<char>,
)
    requires
        reads_int(comp, "in_width"@, 8, narrow),
        reads_int(comp, "out_width"@, 16, wide),
        reads_text(comp, "type"@, "zero"@, extends),
        reads_int(comp, "matrixcols"@, 5, across),
        reads_int(comp, "matrixrows"@, 7, down),
        reads_text(comp, "inputtype"@, "column"@, driven),
    ensures
        comp.type_@ == "core:BitExtender"@ ==> {
            &&& narrow < 1 || narrow > 32 ==> refused(table, comp, Problem::InvalidWidth(narrow))
            &&& 1 <= narrow <= 32 && (wide < 1 || wide > 32) ==> refused(
                table,
                comp,
                Problem::InvalidWidth(wide),
            )
            &&& 1 <= narrow <= 32 && 1 <= wide <= 32 && extends != "zero"@ && extends != "one"@
                && extends != "sign"@ && extends != "input"@ ==> refused(
                table,
                comp,
                Problem::InvalidExtendType(extends),
            )
        },
        comp.type_@ == "core:DotMatrix"@ ==> {
            &&& across < 1 || across > 32 ==> refused(
                table,
                comp,
                Problem::InvalidDotMatrixSize("matrixcols"@, across),
            )
            &&& 1 <= across <= 32 && (down < 1 || down > 32) ==> refused(
                table,
                comp,
                Problem::InvalidDotMatrixSize("matrixrows"@, down),
            )
            &&& 1 <= across <= 32 && 1 <= down <= 32 && driven != "column"@ && driven != "row"@
                && driven != "select"@ ==> refused(
                table,
                comp,
                Problem::InvalidDotMatrixInput(driven),
            )
        },
{
    spelled();
    if comp.type_@.len() > 5 && comp.type_@[5] != 'c' {
        no_instance(comp);
    }
}

/// A terminal has 1 to 120 columns and 1 to 48 rows, and a keyboard holds 1 to 256 characters.
pub proof fn terminals_have_limits(
    table: Map<Seq<char>, PortWidths>,
    comp: ComponentInstance,
    across: i64,
    down: i64,
    length: i64,
)
    requires
        reads_int(comp, "cols"@, 32, across),
        reads_int(comp, "rows"@, 8, down),
        reads_int(comp, "buflen"@, 32, length),
    ensures
        comp.type_@ == "core:Tty"@ ==> {
            &&& across < 1 || across > 120 ==> refused(
                table,
                comp,
                Problem::InvalidTtyDimension("cols"@, across),
            )
            &&& 1 <= across <= 120 && (down < 1 || down > 48) ==> refused(
                table,
                comp,
                Problem::InvalidTtyDimension("rows"@, down),
            )
        },
        comp.type_@ == "core:Keyboard"@ && (length < 1 || length > 256) ==> refused(
            table,
            comp,
            Problem::InvalidKeyboardBufferLength(length),
        ),
{
    spelled();
    if comp.type_@.len() > 5 && comp.type_@[5] != 'c' {
        no_instance(comp);
    }
}

/// Every component with a single width refuses one outside 1 to 32.
pub proof fn widths_have_limits(
    table: Map<Seq<char>, PortWidths>,
    comp: ComponentInstance,
    width: i64,
)
    requires
        reads_int(comp, "width"@, 1, width),
        width < 1 || width > 32,
        comp.type_@ == "core:NotGate"@ || comp.type_@ == "core:Buffer"@ || comp.type_@
            == "core:ControlledBuffer"@ || comp.type_@ == "core:Constant"@ || comp.type_@
            == "core:Ground"@ || comp.type_@ == "core:Power"@ || comp.type_@ == "core:InputPin"@
            || comp.type_@ == "core:OutputPin"@ || comp.type_@ == "core:Probe"@ || comp.type_@
            == "core:Transistor"@ || comp.type_@ == "core:Register"@ || comp.type_@
            == "core:Multiplexer"@ || comp.type_@ == "core:Demultiplexer"@ || comp.type_@
            == "core:Adder"@ || comp.type_@ == "core:Subtractor"@ || comp.type_@
            == "core:Comparator"@,
    ensures
        refused(table, comp, Problem::InvalidWidth(width)),
{
    spelled();
    no_instance(comp);
}

/// A component of type `core:circuit/<name>` is an instance of the circuit of that name, refused
/// where there is none.
pub proof fn instance_components(
    table: Map<Seq<char>, PortWidths>,
    comp: ComponentInstance,
    name: Seq<char>,
)
    requires
        comp.type_@ == "core:circuit/"@ + name,
    ensures
        table.contains_key(name) ==> parts::part_of(table, comp) == Ok::<Part, Problem>(
            Part::Instance(name),
        ),
        !table.contains_key(name) ==> refused(table, comp, Problem::UnknownSubcircuit(name)),
{
    let prefix = "core:circuit/"@;
    assert(prefix.is_prefix_of(comp.type_@));
    assert(comp.type_@.skip(prefix.len() as int) =~= name);
}

/// A constant is what its value leaves modulo two to the 32: a negative one counts that much more,
/// and a larger one loses what is above 32 bits.
pub proof fn constants_keep_their_low_bits(
    table: Map<Seq<char>, PortWidths>,
    comp: ComponentInstance,
    width: i64,
    value: i64,
)
    requires
        comp.type_@ == "core:Constant"@,
        reads_int(comp, "width"@, 1, width),
        reads_int(comp, "value"@, 0, value),
        1 <= width <= 32,
    ensures
        becomes(
            table,
            comp,
            (GateView::Constant {
                bits: width as u8,
                value: (value as int % 0x1_0000_0000) as u32,
            }),
        ),
{
    spelled();
    no_instance(comp);
    low_bits(value);
}

proof fn low_bits(value: i64)
    ensures
        value as u32 == value as int % 0x1_0000_0000,
{
    assert(value as u32 == ((value as u64) % 0x1_0000_0000u64)) by (bit_vector);
    if value < 0 {
        assert((value as u64) as i128 == ((value as i128) + 0x1_0000_0000_0000_0000i128) as i128)
            by (bit_vector)
            requires
                value < 0i64,
        ;
        assert(value as u64 == value + 0x1_0000_0000_0000_0000);
        vstd::arithmetic::div_mod::lemma_mod_multiples_vanish(
            0x1_0000_0000,
            value as int,
            0x1_0000_0000,
        );
    } else {
        assert(value as u64 == value);
    }
}

} // verus!
