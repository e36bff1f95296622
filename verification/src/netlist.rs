//! Elaboration: turns circuits that may instantiate other circuits into one flat [`Netlist`].
//!
//! Every subcircuit instance is expanded into its own copies of the gates inside it. A
//! subcircuit's ports cost nothing: what feeds an input port is wired straight to what the
//! port feeds inside, and what reads an output port straight to what drives it inside.
use std::collections::HashMap;
use vstd::prelude::*;
use crate::components;
use crate::components::plexers::line_count;
use crate::components::signal::{fill, zeros};
use crate::components::{DotMatrixInput, ExtendMode, Gate, GateView, Trigger};
use crate::name_map::NameMap;
use crate::plugin_abi::Bit;
use crate::text;

verus! {

/// A pin: gate or node index, pin index.
pub type PinRef = (usize, usize);

/// One bit of a pin: gate or node index, pin index, bit index. The unit of connectivity.
pub type BitRef = (usize, usize, u8);

/// A node of a circuit: a gate's configuration, or an instance of another circuit.
#[derive(Debug, Clone)]
pub enum TemplateNode {
    And { bits: u8, inputs: usize },
    Or { bits: u8, inputs: usize },
    Not { bits: u8 },
    Nand { bits: u8, inputs: usize },
    Nor { bits: u8, inputs: usize },
    Xor { bits: u8, inputs: usize },
    Xnor { bits: u8, inputs: usize },
    Buffer { bits: u8 },
    ControlledBuffer { bits: u8 },
    Constant { bits: u8, value: u32 },
    InputPin { bits: u8 },
    OutputPin { bits: u8 },
    PullResistor(Bit),
    BitExtender { in_bits: u8, out_bits: u8, mode: ExtendMode },
    HexDigit,
    Transistor { bits: u8, conducts_on: Bit },
    Clock { high: u64, low: u64 },
    Register { bits: u8, trigger: Trigger },
    Mux { bits: u8, select_bits: u8, has_enable: bool, disabled_zero: bool },
    Demux { bits: u8, select_bits: u8, has_enable: bool, disabled_zero: bool, tristate: bool },
    Decoder { select_bits: u8, has_enable: bool, disabled_zero: bool, tristate: bool },
    PriorityEncoder { select_bits: u8, disabled_zero: bool },
    Adder { bits: u8 },
    Subtractor { bits: u8 },
    Comparator { bits: u8, signed: bool },
    DotMatrix { rows: u8, cols: u8, input: DotMatrixInput },
    Tty { cols: u8, rows: u8, trigger: Trigger },
    Keyboard { capacity: u16, trigger: Trigger },
    /// An instance of the circuit of this name. Its pins are its input ports followed by its
    /// output ports.
    Subcircuit(String),
}

impl TemplateNode {
    /// What gate a node stands for, in its initial state. Of a subcircuit node it is
    /// nothing in particular.
    pub open spec fn initial(self) -> GateView {
        match self {
            TemplateNode::And { bits, inputs } => GateView::And { bits, inputs },
            TemplateNode::Or { bits, inputs } => GateView::Or { bits, inputs },
            TemplateNode::Not { bits } => GateView::Not { bits },
            TemplateNode::Nand { bits, inputs } => GateView::Nand { bits, inputs },
            TemplateNode::Nor { bits, inputs } => GateView::Nor { bits, inputs },
            TemplateNode::Xor { bits, inputs } => GateView::Xor { bits, inputs },
            TemplateNode::Xnor { bits, inputs } => GateView::Xnor { bits, inputs },
            TemplateNode::Buffer { bits } => GateView::Buffer { bits },
            TemplateNode::ControlledBuffer { bits } => GateView::ControlledBuffer { bits },
            TemplateNode::Constant { bits, value } => GateView::Constant { bits, value },
            TemplateNode::InputPin { bits } => GateView::InputPin {
                bits,
                value: components::signal::filled(bits as nat, Bit::Zero),
            },
            TemplateNode::OutputPin { bits } => GateView::OutputPin {
                bits,
                value: components::signal::filled(bits as nat, Bit::Zero),
            },
            TemplateNode::PullResistor(to) => GateView::PullResistor { to },
            TemplateNode::BitExtender { in_bits, out_bits, mode } => GateView::BitExtender {
                in_bits,
                out_bits,
                mode,
            },
            TemplateNode::HexDigit => GateView::HexDigit {
                value: components::signal::filled(8, Bit::Zero),
            },
            TemplateNode::Transistor { bits, conducts_on } => GateView::Transistor {
                bits,
                conducts_on,
            },
            TemplateNode::Clock { high, low } => GateView::Clock {
                high,
                low,
                clicks: 0,
                sending: Bit::Zero,
            },
            TemplateNode::Register { bits, trigger } => GateView::Register {
                bits,
                trigger,
                value: 0,
                last_clock: Bit::Zero,
            },
            TemplateNode::Mux { bits, select_bits, has_enable, disabled_zero } => GateView::Mux {
                bits,
                select_bits,
                has_enable,
                disabled_zero,
            },
            TemplateNode::Demux { bits, select_bits, has_enable, disabled_zero, tristate } => {
                GateView::Demux { bits, select_bits, has_enable, disabled_zero, tristate }
            },
            TemplateNode::Decoder { select_bits, has_enable, disabled_zero, tristate } => {
                GateView::Decoder { select_bits, has_enable, disabled_zero, tristate }
            },
            TemplateNode::PriorityEncoder { select_bits, disabled_zero } => {
                GateView::PriorityEncoder { select_bits, disabled_zero }
            },
            TemplateNode::Adder { bits } => GateView::Adder { bits },
            TemplateNode::Subtractor { bits } => GateView::Subtractor { bits },
            TemplateNode::Comparator { bits, signed } => GateView::Comparator { bits, signed },
            TemplateNode::DotMatrix { rows, cols, input } => GateView::DotMatrix {
                rows,
                cols,
                input,
                grid: components::signal::filled((rows as nat) * (cols as nat), Bit::Unknown),
            },
            TemplateNode::Tty { cols, rows, trigger } => GateView::Tty {
                cols,
                rows,
                trigger,
                last_clock: Bit::Unknown,
                row_data: components::io::blank_text((rows - 1) as nat).rows,
                last_row: Seq::empty(),
                row: 0,
            },
            TemplateNode::Keyboard { capacity, trigger } => GateView::Keyboard {
                capacity,
                trigger,
                last_clock: Bit::Unknown,
                buffer: Seq::empty(),
                cursor: 0,
            },
            TemplateNode::Subcircuit(_) => GateView::Buffer { bits: 0 },
        }
    }

    /// The node's gate can be built and its pins numbered.
    pub open spec fn buildable(self) -> bool {
        &&& components::plexers::valid(self.initial())
        &&& self matches TemplateNode::Tty { rows, .. } ==> rows >= 1
    }

    /// The declared width of an input pin. An instance has no width of its own.
    pub fn input_width(&self, pin: usize) -> (r: u8)
        requires
            !(self is Subcircuit),
            self.initial().has_inputs(),
            components::plexers::valid(self.initial()),
        ensures
            r == self.initial().input_width(pin as int),
    {
        match self {
            TemplateNode::And { bits, .. } => *bits,
            TemplateNode::Or { bits, .. } => *bits,
            TemplateNode::Not { bits } => *bits,
            TemplateNode::Nand { bits, .. } => *bits,
            TemplateNode::Nor { bits, .. } => *bits,
            TemplateNode::Xor { bits, .. } => *bits,
            TemplateNode::Xnor { bits, .. } => *bits,
            TemplateNode::Buffer { bits } => *bits,
            TemplateNode::OutputPin { bits } => *bits,
            TemplateNode::Comparator { bits, .. } => *bits,
            TemplateNode::ControlledBuffer { bits } => if pin == 0 {
                *bits
            } else {
                1
            },
            TemplateNode::BitExtender { in_bits, .. } => if pin == 0 {
                *in_bits
            } else {
                1
            },
            TemplateNode::HexDigit => if pin == 0 {
                4
            } else {
                1
            },
            TemplateNode::Transistor { bits, .. } => if pin == 0 {
                *bits
            } else {
                1
            },
            TemplateNode::Register { bits, .. } => if pin == 0 {
                *bits
            } else {
                1
            },
            TemplateNode::Mux { bits, select_bits, .. } => {
                let n: usize = line_count(*select_bits);
                if pin < n {
                    *bits
                } else if pin == n {
                    *select_bits
                } else {
                    1
                }
            },
            TemplateNode::Demux { bits, select_bits, has_enable, .. } => {
                if pin == 0 {
                    *select_bits
                } else if *has_enable && pin == 1 {
                    1
                } else {
                    *bits
                }
            },
            TemplateNode::Decoder { select_bits, .. } => if pin == 0 {
                *select_bits
            } else {
                1
            },
            TemplateNode::Adder { bits } => if pin < 2 {
                *bits
            } else {
                1
            },
            TemplateNode::Subtractor { bits } => if pin < 2 {
                *bits
            } else {
                1
            },
            TemplateNode::DotMatrix { rows, cols, input } => match input {
                DotMatrixInput::Column => *rows,
                DotMatrixInput::Row => *cols,
                DotMatrixInput::Select => if pin == 0 {
                    *cols
                } else {
                    *rows
                },
            },
            TemplateNode::Tty { .. } => if pin == 3 {
                7
            } else {
                1
            },
            _ => 1,
        }
    }

    /// The declared width of an output pin. An instance has no width of its own.
    pub fn output_width(&self, pin: usize) -> (r: u8)
        requires
            !(self is Subcircuit),
            self.initial().has_outputs(),
        ensures
            r == self.initial().output_width(pin as int),
    {
        match self {
            TemplateNode::And { bits, .. } => *bits,
            TemplateNode::Or { bits, .. } => *bits,
            TemplateNode::Not { bits } => *bits,
            TemplateNode::Nand { bits, .. } => *bits,
            TemplateNode::Nor { bits, .. } => *bits,
            TemplateNode::Xor { bits, .. } => *bits,
            TemplateNode::Xnor { bits, .. } => *bits,
            TemplateNode::Buffer { bits } => *bits,
            TemplateNode::ControlledBuffer { bits } => *bits,
            TemplateNode::Constant { bits, .. } => *bits,
            TemplateNode::InputPin { bits } => *bits,
            TemplateNode::BitExtender { out_bits, .. } => *out_bits,
            TemplateNode::Transistor { bits, .. } => *bits,
            TemplateNode::Register { bits, .. } => *bits,
            TemplateNode::Mux { bits, .. } => *bits,
            TemplateNode::Demux { bits, .. } => *bits,
            TemplateNode::PriorityEncoder { select_bits, .. } => if pin == 0 {
                *select_bits
            } else {
                1
            },
            TemplateNode::Adder { bits } => if pin == 0 {
                *bits
            } else {
                1
            },
            TemplateNode::Subtractor { bits } => if pin == 0 {
                *bits
            } else {
                1
            },
            TemplateNode::Keyboard { .. } => if pin == 0 {
                1
            } else {
                7
            },
            _ => 1,
        }
    }

    /// What gate a node stands for, `None` for a subcircuit.
    fn gate(&self) -> (r: Option<Gate>)
        requires
            self.buildable(),
        ensures
            r is None <==> self is Subcircuit,
            r matches Some(g) ==> g@ == self.initial(),
    {
        let gate: Gate = match self {
            TemplateNode::And { bits, inputs } => Gate::And { bits: *bits, inputs: *inputs },
            TemplateNode::Or { bits, inputs } => Gate::Or { bits: *bits, inputs: *inputs },
            TemplateNode::Not { bits } => Gate::Not { bits: *bits },
            TemplateNode::Nand { bits, inputs } => Gate::Nand { bits: *bits, inputs: *inputs },
            TemplateNode::Nor { bits, inputs } => Gate::Nor { bits: *bits, inputs: *inputs },
            TemplateNode::Xor { bits, inputs } => Gate::Xor { bits: *bits, inputs: *inputs },
            TemplateNode::Xnor { bits, inputs } => Gate::Xnor { bits: *bits, inputs: *inputs },
            TemplateNode::Buffer { bits } => Gate::Buffer { bits: *bits },
            TemplateNode::ControlledBuffer { bits } => Gate::ControlledBuffer { bits: *bits },
            TemplateNode::Constant { bits, value } => Gate::Constant { bits: *bits, value: *value },
            TemplateNode::InputPin { bits } => Gate::InputPin { bits: *bits, value: zeros(*bits) },
            TemplateNode::OutputPin { bits } => Gate::OutputPin { bits: *bits, value: zeros(*bits) },
            TemplateNode::PullResistor(to) => Gate::PullResistor { to: *to },
            TemplateNode::BitExtender { in_bits, out_bits, mode } => Gate::BitExtender {
                in_bits: *in_bits,
                out_bits: *out_bits,
                mode: *mode,
            },
            TemplateNode::HexDigit => Gate::HexDigit { value: zeros(8) },
            TemplateNode::Transistor { bits, conducts_on } => Gate::Transistor {
                bits: *bits,
                conducts_on: *conducts_on,
            },
            TemplateNode::Clock { high, low } => Gate::Clock {
                high: *high,
                low: *low,
                clicks: 0,
                sending: Bit::Zero,
            },
            TemplateNode::Register { bits, trigger } => Gate::Register {
                bits: *bits,
                trigger: *trigger,
                value: 0,
                last_clock: Bit::Zero,
            },
            TemplateNode::Mux { bits, select_bits, has_enable, disabled_zero } => Gate::Mux {
                bits: *bits,
                select_bits: *select_bits,
                has_enable: *has_enable,
                disabled_zero: *disabled_zero,
            },
            TemplateNode::Demux { bits, select_bits, has_enable, disabled_zero, tristate } => {
                Gate::Demux {
                    bits: *bits,
                    select_bits: *select_bits,
                    has_enable: *has_enable,
                    disabled_zero: *disabled_zero,
                    tristate: *tristate,
                }
            },
            TemplateNode::Decoder { select_bits, has_enable, disabled_zero, tristate } => {
                Gate::Decoder {
                    select_bits: *select_bits,
                    has_enable: *has_enable,
                    disabled_zero: *disabled_zero,
                    tristate: *tristate,
                }
            },
            TemplateNode::PriorityEncoder { select_bits, disabled_zero } => {
                Gate::PriorityEncoder { select_bits: *select_bits, disabled_zero: *disabled_zero }
            },
            TemplateNode::Adder { bits } => Gate::Adder { bits: *bits },
            TemplateNode::Subtractor { bits } => Gate::Subtractor { bits: *bits },
            TemplateNode::Comparator { bits, signed } => Gate::Comparator {
                bits: *bits,
                signed: *signed,
            },
            TemplateNode::DotMatrix { rows, cols, input } => {
                proof {
                    assert(*rows * *cols <= 255 * 255) by (nonlinear_arith)
                        requires
                            *rows <= 255,
                            *cols <= 255,
                    ;
                }
                Gate::DotMatrix {
                    rows: *rows,
                    cols: *cols,
                    input: *input,
                    grid: fill(Bit::Unknown, *rows as usize * *cols as usize),
                }
            },
            TemplateNode::Tty { cols, rows, trigger } => {
                let mut row_data: Vec<Vec<char>> = Vec::new();
                for i in 0..(*rows - 1) as usize
                    invariant
                        row_data@.len() == i,
                        forall|j: int| 0 <= j < i ==> (#[trigger] row_data@[j])@.len() == 0,
                {
                    row_data.push(Vec::new());
                }
                proof {
                    let blank = components::io::blank_text((*rows - 1) as nat).rows;
                    assert forall|j: int| 0 <= j < blank.len() implies components::rows_view(
                        row_data@,
                    )[j] == blank[j] by {
                        assert(row_data@[j]@ =~= Seq::<char>::empty());
                    }
                    assert(components::rows_view(row_data@) =~= blank);
                }
                Gate::Tty {
                    cols: *cols,
                    rows: *rows,
                    trigger: *trigger,
                    last_clock: Bit::Unknown,
                    row_data,
                    last_row: Vec::new(),
                    row: 0,
                }
            },
            TemplateNode::Keyboard { capacity, trigger } => Gate::Keyboard {
                capacity: *capacity,
                trigger: *trigger,
                last_clock: Bit::Unknown,
                buffer: Vec::new(),
                cursor: 0,
            },
            TemplateNode::Subcircuit(_) => {
                return None;
            },
        };
        assert(gate@ =~= self.initial());
        Some(gate)
    }
}

/// A circuit, ready to be elaborated.
#[derive(Debug, Clone, Default)]
pub struct CircuitTemplate {
    pub name: String,
    pub nodes: Vec<TemplateNode>,
    /// Source bit to destination bit.
    pub connections: Vec<(BitRef, BitRef)>,
    /// Per input port and bit of that port: every internal bit that it feeds.
    pub input_ports: Vec<Vec<Vec<BitRef>>>,
    /// Per output port and bit of that port: every internal bit that drives it.
    pub output_ports: Vec<Vec<Vec<BitRef>>>,
    /// The nodes that only declare a port. Inside a subcircuit instance they are not wired:
    /// the instance's surroundings drive and read the port.
    pub port_marker_nodes: Vec<usize>,
    /// Node index by component id.
    pub component_index: NameMap<usize>,
}

/// Circuits by name.
pub type Library = NameMap<CircuitTemplate>;

/// Why a circuit cannot be elaborated.
#[derive(Debug, Clone, PartialEq, Eq)]
pub enum NetlistError {
    UnknownSubcircuit(String),
    /// The chain of instances that leads back to a circuit within itself.
    CircularSubcircuit(Vec<String>),
}

/// The mathematical content of a [`NetlistError`].
pub enum NetlistErrorView {
    UnknownSubcircuit(Seq<char>),
    CircularSubcircuit(Seq<Seq<char>>),
}

/// The contents of a list of strings.
pub open spec fn strings(list: Seq<String>) -> Seq<Seq<char>> {
    Seq::new(list.len(), |i: int| list[i]@)
}

impl View for NetlistError {
    type V = NetlistErrorView;

    open spec fn view(&self) -> NetlistErrorView {
        match self {
            NetlistError::UnknownSubcircuit(name) => NetlistErrorView::UnknownSubcircuit(name@),
            NetlistError::CircularSubcircuit(path) => NetlistErrorView::CircularSubcircuit(
                strings(path@),
            ),
        }
    }
}

/// A flat circuit: gates, and for every bit of every pin what drives it or reads it.
#[derive(Debug, Default)]
pub struct Netlist {
    pub gates: Vec<Gate>,
    /// By gate, input pin and bit: every driving bit. None means floating.
    pub input_sources: Vec<Vec<Vec<Vec<BitRef>>>>,
    /// By gate, output pin and bit: every bit that it drives.
    pub fanout: Vec<Vec<Vec<Vec<BitRef>>>>,
}

/// A wire from a source bit to a destination bit.
pub type Wire = (BitRef, BitRef);

/// What drives a bit, in the order in which it was wired.
pub open spec fn drivers(wires: Seq<Wire>, dst: BitRef) -> Seq<BitRef>
    decreases wires.len(),
{
    if wires.len() == 0 {
        Seq::empty()
    } else {
        let before = drivers(wires.drop_last(), dst);
        if wires.last().1 == dst {
            before.push(wires.last().0)
        } else {
            before
        }
    }
}

/// What a bit drives, in the order in which it was wired.
pub open spec fn consumers(wires: Seq<Wire>, src: BitRef) -> Seq<BitRef>
    decreases wires.len(),
{
    if wires.len() == 0 {
        Seq::empty()
    } else {
        let before = consumers(wires.drop_last(), src);
        if wires.last().0 == src {
            before.push(wires.last().1)
        } else {
            before
        }
    }
}

/// The contents of a list of gates.
pub open spec fn gate_views(gates: Seq<Gate>) -> Seq<GateView> {
    Seq::new(gates.len(), |i: int| gates[i]@)
}

/// A bit of an input pin of one of the gates.
pub open spec fn is_target(gates: Seq<GateView>, r: BitRef) -> bool {
    &&& r.0 < gates.len()
    &&& r.1 < gates[r.0 as int].input_count()
    &&& r.2 < gates[r.0 as int].input_width(r.1 as int)
}

/// A bit of an output pin of one of the gates.
pub open spec fn is_source(gates: Seq<GateView>, r: BitRef) -> bool {
    &&& r.0 < gates.len()
    &&& r.1 < gates[r.0 as int].output_count()
    &&& r.2 < gates[r.0 as int].output_width(r.1 as int)
}

/// All wires run from an output pin's bit to an input pin's bit.
pub open spec fn wires_ok(gates: Seq<GateView>, wires: Seq<Wire>) -> bool {
    forall|i: int|
        0 <= i < wires.len() ==> is_source(gates, (#[trigger] wires[i]).0) && is_target(
            gates,
            wires[i].1,
        )
}

/// A table by gate, input pin and bit that holds for each its drivers.
pub open spec fn sources_table(
    gates: Seq<GateView>,
    wires: Seq<Wire>,
    table: Seq<Vec<Vec<Vec<BitRef>>>>,
) -> bool {
    &&& table.len() == gates.len()
    &&& forall|g: int|
        0 <= g < gates.len() ==> (#[trigger] table[g])@.len() == gates[g].input_count()
    &&& forall|g: int, p: int|
        0 <= g < gates.len() && 0 <= p < gates[g].input_count() ==> (#[trigger] table[g]@[p])@.len()
            == gates[g].input_width(p)
    &&& forall|g: int, p: int, b: int|
        0 <= g < gates.len() && 0 <= p < gates[g].input_count() && 0 <= b < gates[g].input_width(p)
            ==> (#[trigger] table[g]@[p]@[b])@ == drivers(
            wires,
            (g as usize, p as usize, b as u8),
        )
}

/// A table by gate, output pin and bit that holds for each what it drives.
pub open spec fn fanout_table(
    gates: Seq<GateView>,
    wires: Seq<Wire>,
    table: Seq<Vec<Vec<Vec<BitRef>>>>,
) -> bool {
    &&& table.len() == gates.len()
    &&& forall|g: int|
        0 <= g < gates.len() ==> (#[trigger] table[g])@.len() == gates[g].output_count()
    &&& forall|g: int, p: int|
        0 <= g < gates.len() && 0 <= p < gates[g].output_count() ==> (
        #[trigger] table[g]@[p])@.len() == gates[g].output_width(p)
    &&& forall|g: int, p: int, b: int|
        0 <= g < gates.len() && 0 <= p < gates[g].output_count() && 0 <= b < gates[g].output_width(
            p,
        ) ==> (#[trigger] table[g]@[p]@[b])@ == consumers(
            wires,
            (g as usize, p as usize, b as u8),
        )
}

impl Netlist {
    /// The netlist consists of these gates, wired by these wires and no others.
    pub open spec fn is_wired(&self, gates: Seq<GateView>, wires: Seq<Wire>) -> bool {
        &&& gate_views(self.gates@) == gates
        &&& wires_ok(gates, wires)
        &&& sources_table(gates, wires, self.input_sources@)
        &&& fanout_table(gates, wires, self.fanout@)
    }
}

struct Builder {
    gates: Vec<Gate>,
    input_sources: Vec<Vec<Vec<Vec<BitRef>>>>,
    fanout: Vec<Vec<Vec<Vec<BitRef>>>>,
    wires: Ghost<Seq<Wire>>,
}

proof fn no_drivers(wires: Seq<Wire>, dst: BitRef)
    requires
        forall|i: int| 0 <= i < wires.len() ==> (#[trigger] wires[i]).1 != dst,
    ensures
        drivers(wires, dst) == Seq::<BitRef>::empty(),
    decreases wires.len(),
{
    if wires.len() > 0 {
        no_drivers(wires.drop_last(), dst);
        assert(wires[wires.len() - 1].1 != dst);
    }
}

proof fn no_consumers(wires: Seq<Wire>, src: BitRef)
    requires
        forall|i: int| 0 <= i < wires.len() ==> (#[trigger] wires[i]).0 != src,
    ensures
        consumers(wires, src) == Seq::<BitRef>::empty(),
    decreases wires.len(),
{
    if wires.len() > 0 {
        no_consumers(wires.drop_last(), src);
        assert(wires[wires.len() - 1].0 != src);
    }
}

impl Builder {
    spec fn view_gates(&self) -> Seq<GateView> {
        gate_views(self.gates@)
    }

    spec fn wf(&self) -> bool {
        &&& wires_ok(self.view_gates(), self.wires@)
        &&& sources_table(self.view_gates(), self.wires@, self.input_sources@)
        &&& fanout_table(self.view_gates(), self.wires@, self.fanout@)
    }

    fn new() -> (r: Self)
        ensures
            r.wf(),
            r.view_gates() == Seq::<GateView>::empty(),
            r.wires@ == Seq::<Wire>::empty(),
    {
        let r = Builder {
            gates: Vec::new(),
            input_sources: Vec::new(),
            fanout: Vec::new(),
            wires: Ghost(Seq::empty()),
        };
        assert(r.view_gates() =~= Seq::<GateView>::empty());
        r
    }

    /// Adds `src` as another driver of `dst`.
    fn connect(&mut self, src: BitRef, dst: BitRef)
        requires
            old(self).wf(),
            is_source(old(self).view_gates(), src),
            is_target(old(self).view_gates(), dst),
        ensures
            final(self).wf(),
            final(self).view_gates() == old(self).view_gates(),
            final(self).wires@ == old(self).wires@.push((src, dst)),
    {
        let ghost before = *self;
        self.input_sources[dst.0][dst.1][dst.2 as usize].push(src);
        self.fanout[src.0][src.1][src.2 as usize].push(dst);
        proof {
            self.wires@ = self.wires@.push((src, dst));
        }
        proof {
            let gates = before.view_gates();
            let wires = self.wires@;
            assert(wires.drop_last() =~= before.wires@);
            assert(self.view_gates() =~= gates);
            assert forall|i: int| 0 <= i < wires.len() implies is_source(
                gates,
                (#[trigger] wires[i]).0,
            ) && is_target(gates, wires[i].1) by {
                if i < before.wires@.len() {
                    assert(wires[i] == before.wires@[i]);
                }
            }
            let t = self.input_sources@;
            let u = before.input_sources@;
            assert forall|g: int, p: int, b: int|
                0 <= g < gates.len() && 0 <= p < gates[g].input_count() && 0 <= b
                    < gates[g].input_width(p) implies (#[trigger] t[g]@[p]@[b])@ == drivers(
                wires,
                (g as usize, p as usize, b as u8),
            ) by {
                assert(u[g]@.len() == gates[g].input_count());
                assert(u[g]@[p]@.len() == gates[g].input_width(p));
                assert(g < before.gates.len() && p < u[g].len());
                assert(u[g]@[p]@[b]@ == drivers(
                    before.wires@,
                    (g as usize, p as usize, b as u8),
                ));
            }
            let v = self.fanout@;
            let w = before.fanout@;
            assert forall|g: int, p: int, b: int|
                0 <= g < gates.len() && 0 <= p < gates[g].output_count() && 0 <= b
                    < gates[g].output_width(p) implies (#[trigger] v[g]@[p]@[b])@ == consumers(
                wires,
                (g as usize, p as usize, b as u8),
            ) by {
                assert(w[g]@.len() == gates[g].output_count());
                assert(w[g]@[p]@.len() == gates[g].output_width(p));
                assert(g < before.gates.len() && p < w[g].len());
                assert(w[g]@[p]@[b]@ == consumers(
                    before.wires@,
                    (g as usize, p as usize, b as u8),
                ));
            }
            assert forall|g: int, p: int|
                0 <= g < gates.len() && 0 <= p < gates[g].input_count() implies (
            #[trigger] t[g]@[p])@.len() == gates[g].input_width(p) by {
                assert(u[g]@.len() == gates[g].input_count());
                assert(u[g]@[p]@.len() == gates[g].input_width(p));
            }
            assert forall|g: int, p: int|
                0 <= g < gates.len() && 0 <= p < gates[g].output_count() implies (
            #[trigger] v[g]@[p])@.len() == gates[g].output_width(p) by {
                assert(w[g]@.len() == gates[g].output_count());
                assert(w[g]@[p]@.len() == gates[g].output_width(p));
            }
            assert forall|g: int| 0 <= g < gates.len() implies (#[trigger] t[g])@.len()
                == gates[g].input_count() by {
                assert(u[g]@.len() == gates[g].input_count());
            }
            assert forall|g: int| 0 <= g < gates.len() implies (#[trigger] v[g])@.len()
                == gates[g].output_count() by {
                assert(w[g]@.len() == gates[g].output_count());
            }
        }
    }

    /// Adds a gate without wires.
    fn add_gate(&mut self, gate: Gate) -> (idx: usize)
        requires
            old(self).wf(),
            components::plexers::valid(gate@),
        ensures
            final(self).wf(),
            idx == old(self).view_gates().len(),
            final(self).view_gates() == old(self).view_gates().push(gate@),
            final(self).wires@ == old(self).wires@,
    {
        let ghost before = *self;
        let ghost added = gate@;
        let idx: usize = self.gates.len();
        let inputs: usize = gate.count_inputs();
        let mut in_sources: Vec<Vec<Vec<BitRef>>> = Vec::new();
        for p in 0..inputs
            invariant
                gate@ == added,
                components::plexers::valid(added),
                inputs == added.input_count(),
                in_sources@.len() == p,
                forall|q: int|
                    0 <= q < p ==> (#[trigger] in_sources@[q])@.len() == added.input_width(q),
                forall|q: int, b: int|
                    0 <= q < p && 0 <= b < in_sources@[q]@.len() ==> (
                    #[trigger] in_sources@[q]@[b])@.len() == 0,
        {
            in_sources.push(empty_lists(gate.input_width(p)));
        }
        let outputs: usize = gate.count_outputs();
        let mut out_fanout: Vec<Vec<Vec<BitRef>>> = Vec::new();
        for p in 0..outputs
            invariant
                gate@ == added,
                components::plexers::valid(added),
                outputs == added.output_count(),
                out_fanout@.len() == p,
                forall|q: int|
                    0 <= q < p ==> (#[trigger] out_fanout@[q])@.len() == added.output_width(q),
                forall|q: int, b: int|
                    0 <= q < p && 0 <= b < out_fanout@[q]@.len() ==> (
                    #[trigger] out_fanout@[q]@[b])@.len() == 0,
        {
            out_fanout.push(empty_lists(gate.output_width(p)));
        }
        self.input_sources.push(in_sources);
        self.fanout.push(out_fanout);
        self.gates.push(gate);
        proof {
            let old_gates = before.view_gates();
            let gates = self.view_gates();
            let wires = self.wires@;
            assert(gates =~= old_gates.push(added));
            assert forall|i: int| 0 <= i < wires.len() implies is_source(
                gates,
                (#[trigger] wires[i]).0,
            ) && is_target(gates, wires[i].1) by {
            }
            let t = self.input_sources@;
            let u = before.input_sources@;
            assert forall|g: int, p: int, b: int|
                0 <= g < gates.len() && 0 <= p < gates[g].input_count() && 0 <= b
                    < gates[g].input_width(p) implies (#[trigger] t[g]@[p]@[b])@ == drivers(
                wires,
                (g as usize, p as usize, b as u8),
            ) by {
                assert(g < self.gates.len());
                if g < old_gates.len() {
                    assert(t[g] == u[g]);
                    assert(u[g]@[p]@[b]@ == drivers(wires, (g as usize, p as usize, b as u8)));
                } else {
                    assert(t[g] == in_sources);
                    assert(in_sources@[p]@[b]@ =~= Seq::<BitRef>::empty());
                    no_drivers(wires, (g as usize, p as usize, b as u8));
                }
            }
            let v = self.fanout@;
            let w = before.fanout@;
            assert forall|g: int, p: int, b: int|
                0 <= g < gates.len() && 0 <= p < gates[g].output_count() && 0 <= b
                    < gates[g].output_width(p) implies (#[trigger] v[g]@[p]@[b])@ == consumers(
                wires,
                (g as usize, p as usize, b as u8),
            ) by {
                assert(g < self.gates.len());
                if g < old_gates.len() {
                    assert(v[g] == w[g]);
                    assert(w[g]@[p]@[b]@ == consumers(wires, (g as usize, p as usize, b as u8)));
                } else {
                    assert(v[g] == out_fanout);
                    assert(out_fanout@[p]@[b]@ =~= Seq::<BitRef>::empty());
                    no_consumers(wires, (g as usize, p as usize, b as u8));
                }
            }
            assert forall|g: int, p: int|
                0 <= g < gates.len() && 0 <= p < gates[g].input_count() implies (
            #[trigger] t[g]@[p])@.len() == gates[g].input_width(p) by {
                if g < old_gates.len() {
                    assert(t[g] == u[g]);
                    assert(u[g]@[p]@.len() == gates[g].input_width(p));
                }
            }
            assert forall|g: int, p: int|
                0 <= g < gates.len() && 0 <= p < gates[g].output_count() implies (
            #[trigger] v[g]@[p])@.len() == gates[g].output_width(p) by {
                if g < old_gates.len() {
                    assert(v[g] == w[g]);
                    assert(w[g]@[p]@.len() == gates[g].output_width(p));
                }
            }
            assert forall|g: int| 0 <= g < gates.len() implies (#[trigger] t[g])@.len()
                == gates[g].input_count() by {
                if g < old_gates.len() {
                    assert(u[g]@.len() == gates[g].input_count());
                }
            }
            assert forall|g: int| 0 <= g < gates.len() implies (#[trigger] v[g])@.len()
                == gates[g].output_count() by {
                if g < old_gates.len() {
                    assert(w[g]@.len() == gates[g].output_count());
                }
            }
        }
        idx
    }
}

/// As many empty lists as a pin has bits.
fn empty_lists(n: u8) -> (r: Vec<Vec<BitRef>>)
    ensures
        r@.len() == n,
        forall|i: int| 0 <= i < n ==> (#[trigger] r@[i])@.len() == 0,
{
    let mut r: Vec<Vec<BitRef>> = Vec::new();
    for i in 0..n as usize
        invariant
            r@.len() == i,
            forall|j: int| 0 <= j < i ==> (#[trigger] r@[j])@.len() == 0,
    {
        r.push(Vec::new());
    }
    r
}

/// Bit lists by port and bit.
pub type PortTable = Seq<Seq<Seq<BitRef>>>;

/// Where a node of a circuit went: a leaf became one gate; of an instance only the bits behind
/// its ports are left.
pub enum Place {
    Leaf(usize),
    Instance { inputs: PortTable, outputs: PortTable },
}

/// Nodes laid out: their gates, the wires inside instances among them, and where each node
/// went.
pub struct Layout {
    pub gates: Seq<GateView>,
    pub wires: Seq<Wire>,
    pub places: Seq<Place>,
}

/// A circuit laid out: all of its gates and wires, where each node went, and the bits behind
/// its ports.
pub struct Elaborated {
    pub gates: Seq<GateView>,
    pub wires: Seq<Wire>,
    pub places: Seq<Place>,
    pub inputs: PortTable,
    pub outputs: PortTable,
}

/// The global bits that a local bit reads from: its own, or those that drive an instance's
/// output port.
pub open spec fn sources_of(places: Seq<Place>, r: BitRef) -> Seq<BitRef> {
    match places[r.0 as int] {
        Place::Leaf(g) => seq![(g, r.1, r.2)],
        Place::Instance { inputs, outputs } => outputs[r.1 - inputs.len()][r.2 as int],
    }
}

/// The global bits that a local bit writes to: its own, or those that an instance's input port
/// feeds.
pub open spec fn targets_of(places: Seq<Place>, r: BitRef) -> Seq<BitRef> {
    match places[r.0 as int] {
        Place::Leaf(g) => seq![(g, r.1, r.2)],
        Place::Instance { inputs, .. } => inputs[r.1 as int][r.2 as int],
    }
}

/// The sources or the targets of the first `k` of a list of local bits.
pub open spec fn resolved(places: Seq<Place>, refs: Seq<BitRef>, sources: bool, k: nat) -> Seq<
    BitRef,
>
    decreases k,
{
    if k == 0 {
        Seq::empty()
    } else {
        resolved(places, refs, sources, (k - 1) as nat) + (if sources {
            sources_of(places, refs[k - 1])
        } else {
            targets_of(places, refs[k - 1])
        })
    }
}

/// The global bits behind a circuit's ports.
pub open spec fn resolved_ports(
    places: Seq<Place>,
    ports: Seq<Vec<Vec<BitRef>>>,
    sources: bool,
) -> PortTable {
    Seq::new(
        ports.len(),
        |p: int|
            Seq::new(
                ports[p]@.len(),
                |b: int| resolved(places, ports[p]@[b]@, sources, ports[p]@[b]@.len()),
            ),
    )
}

/// A wire from each of the first `k` sources to every target.
pub open spec fn all_pairs(srcs: Seq<BitRef>, dsts: Seq<BitRef>, k: nat) -> Seq<Wire>
    decreases k,
{
    if k == 0 {
        Seq::empty()
    } else {
        all_pairs(srcs, dsts, (k - 1) as nat) + Seq::new(
            dsts.len(),
            |j: int| (srcs[k - 1], dsts[j]),
        )
    }
}

/// A node that only declares a port of an instance is not wired.
pub open spec fn unwired(t: CircuitTemplate, is_entry: bool, c: Wire) -> bool {
    !is_entry && (t.port_marker_nodes@.contains(c.0.0) || t.port_marker_nodes@.contains(c.1.0))
}

/// The wires of the first `k` connections of a circuit.
pub open spec fn connection_wires(
    t: CircuitTemplate,
    places: Seq<Place>,
    is_entry: bool,
    k: nat,
) -> Seq<Wire>
    decreases k,
{
    if k == 0 {
        Seq::empty()
    } else {
        let c = t.connections@[k - 1];
        let before = connection_wires(t, places, is_entry, (k - 1) as nat);
        if unwired(t, is_entry, c) {
            before
        } else {
            let srcs = sources_of(places, c.0);
            before + all_pairs(srcs, targets_of(places, c.1), srcs.len())
        }
    }
}

/// The circuits of a library that are not being elaborated yet.
pub open spec fn remaining(lib: Map<Seq<char>, CircuitTemplate>, stack: Seq<Seq<char>>) -> nat {
    lib.dom().difference(stack.to_set()).len()
}

/// Entering a circuit leaves fewer circuits to enter: elaboration ends.
pub proof fn remaining_shrinks(
    lib: Map<Seq<char>, CircuitTemplate>,
    stack: Seq<Seq<char>>,
    name: Seq<char>,
)
    requires
        lib.dom().finite(),
        lib.contains_key(name),
        !stack.contains(name),
    ensures
        remaining(lib, stack.push(name)) < remaining(lib, stack),
{
    let a = lib.dom().difference(stack.to_set());
    let b = lib.dom().difference(stack.push(name).to_set());
    assert(a.contains(name));
    assert(stack.push(name)[stack.len() as int] == name);
    assert forall|n: Seq<char>| b.contains(n) <==> a.remove(name).contains(n) by {
        if stack.contains(n) {
            let i = choose|i: int| 0 <= i < stack.len() && stack[i] == n;
            assert(stack.push(name)[i] == n);
        }
        if stack.push(name).contains(n) && n != name {
            let i = choose|i: int| 0 <= i < stack.push(name).len() && stack.push(name)[i] == n;
            assert(stack[i] == n);
        }
    }
    assert(b =~= a.remove(name));
}

/// Elaborates a circuit as an instance whose gates start at number `base`, with the names of
/// the circuits around it. Fails on a name that is not in the library, and on a circuit that
/// contains itself.
pub open spec fn elaborate(
    lib: Map<Seq<char>, CircuitTemplate>,
    name: Seq<char>,
    stack: Seq<Seq<char>>,
    base: nat,
    is_entry: bool,
) -> Result<Elaborated, NetlistErrorView>
    decreases remaining(lib, stack), 0nat,
    when lib.dom().finite()
{
    if stack.contains(name) {
        Err(NetlistErrorView::CircularSubcircuit(stack.push(name)))
    } else if !lib.contains_key(name) {
        Err(NetlistErrorView::UnknownSubcircuit(name))
    } else {
        proof {
            remaining_shrinks(lib, stack, name);
        }
        let t = lib[name];
        match lay_out(lib, t, stack.push(name), t.nodes@.len(), base) {
            Err(e) => Err(e),
            Ok(l) => Ok(
                Elaborated {
                    gates: l.gates,
                    wires: l.wires + connection_wires(
                        t,
                        l.places,
                        is_entry,
                        t.connections@.len(),
                    ),
                    places: l.places,
                    inputs: resolved_ports(l.places, t.input_ports@, false),
                    outputs: resolved_ports(l.places, t.output_ports@, true),
                },
            ),
        }
    }
}

/// Lays out the first `k` nodes of a circuit: a leaf becomes one gate, an instance all the
/// gates of its circuit.
pub open spec fn lay_out(
    lib: Map<Seq<char>, CircuitTemplate>,
    t: CircuitTemplate,
    stack: Seq<Seq<char>>,
    k: nat,
    base: nat,
) -> Result<Layout, NetlistErrorView>
    decreases remaining(lib, stack), k,
    when lib.dom().finite()
{
    if k == 0 {
        Ok(Layout { gates: Seq::empty(), wires: Seq::empty(), places: Seq::empty() })
    } else {
        match lay_out(lib, t, stack, (k - 1) as nat, base) {
            Err(e) => Err(e),
            Ok(l) => match t.nodes@[k - 1] {
                TemplateNode::Subcircuit(sub) => {
                    match elaborate(lib, sub@, stack, base + l.gates.len(), false) {
                        Err(e) => Err(e),
                        Ok(e) => Ok(
                            Layout {
                                gates: l.gates + e.gates,
                                wires: l.wires + e.wires,
                                places: l.places.push(
                                    Place::Instance { inputs: e.inputs, outputs: e.outputs },
                                ),
                            },
                        ),
                    }
                },
                node => Ok(
                    Layout {
                        gates: l.gates.push(node.initial()),
                        wires: l.wires,
                        places: l.places.push(Place::Leaf((base + l.gates.len()) as usize)),
                    },
                ),
            },
        }
    }
}

/// A local bit that can be read: a leaf's output bit, or a bit of an instance's output port.
pub open spec fn readable(
    lib: Map<Seq<char>, CircuitTemplate>,
    nodes: Seq<TemplateNode>,
    r: BitRef,
) -> bool {
    &&& r.0 < nodes.len()
    &&& match nodes[r.0 as int] {
        TemplateNode::Subcircuit(sub) => lib.contains_key(sub@) ==> {
            let n = lib[sub@].input_ports@.len();
            let ports = lib[sub@].output_ports@;
            n <= r.1 < n + ports.len() && r.2 < ports[r.1 - n]@.len()
        },
        node => r.1 < node.initial().output_count() && r.2 < node.initial().output_width(
            r.1 as int,
        ),
    }
}

/// A local bit that can be driven: a leaf's input bit, or a bit of an instance's input port.
pub open spec fn writable(
    lib: Map<Seq<char>, CircuitTemplate>,
    nodes: Seq<TemplateNode>,
    r: BitRef,
) -> bool {
    &&& r.0 < nodes.len()
    &&& match nodes[r.0 as int] {
        TemplateNode::Subcircuit(sub) => lib.contains_key(sub@) ==> {
            let ports = lib[sub@].input_ports@;
            r.1 < ports.len() && r.2 < ports[r.1 as int]@.len()
        },
        node => r.1 < node.initial().input_count() && r.2 < node.initial().input_width(r.1 as int),
    }
}

/// The nodes of a circuit can be built, and its connections and ports refer to pins that
/// exist.
pub open spec fn template_ok(
    lib: Map<Seq<char>, CircuitTemplate>,
    t: CircuitTemplate,
    is_entry: bool,
) -> bool {
    &&& forall|i: int| 0 <= i < t.nodes@.len() ==> (#[trigger] t.nodes@[i]).buildable()
    &&& forall|i: int|
        0 <= i < t.connections@.len() && !unwired(t, is_entry, #[trigger] t.connections@[i])
            ==> readable(lib, t.nodes@, t.connections@[i].0) && writable(
            lib,
            t.nodes@,
            t.connections@[i].1,
        )
    &&& forall|p: int, b: int, k: int|
        0 <= p < t.input_ports@.len() && 0 <= b < t.input_ports@[p]@.len() && 0 <= k
            < t.input_ports@[p]@[b]@.len() ==> writable(
            lib,
            t.nodes@,
            #[trigger] t.input_ports@[p]@[b]@[k],
        )
    &&& forall|p: int, b: int, k: int|
        0 <= p < t.output_ports@.len() && 0 <= b < t.output_ports@[p]@.len() && 0 <= k
            < t.output_ports@[p]@[b]@.len() ==> readable(
            lib,
            t.nodes@,
            #[trigger] t.output_ports@[p]@[b]@[k],
        )
}

/// A circuit and all circuits that it instantiates are ones whose connections and ports refer
/// to pins that exist.
pub open spec fn can_elaborate(
    lib: Map<Seq<char>, CircuitTemplate>,
    name: Seq<char>,
    stack: Seq<Seq<char>>,
    is_entry: bool,
) -> bool
    decreases remaining(lib, stack),
    when lib.dom().finite()
{
    stack.contains(name) || !lib.contains_key(name) || {
        proof {
            remaining_shrinks(lib, stack, name);
        }
        &&& template_ok(lib, lib[name], is_entry)
        &&& forall|i: int|
            0 <= i < lib[name].nodes@.len() ==> (#[trigger] lib[name].nodes@[i] matches
                TemplateNode::Subcircuit(sub) ==> can_elaborate(
                lib,
                sub@,
                stack.push(name),
                false,
            ))
    }
}

/// The contents of bit lists by port and bit.
spec fn table_view(t: Seq<Vec<Vec<BitRef>>>) -> PortTable {
    Seq::new(t.len(), |p: int| Seq::new(t[p]@.len(), |b: int| t[p]@[b]@))
}

/// The global bits behind an instance's ports.
struct ChildPorts {
    input_port_targets: Vec<Vec<Vec<BitRef>>>,
    output_port_sources: Vec<Vec<Vec<BitRef>>>,
}

/// Where a node went.
enum Located {
    Gate(usize),
    Ports(ChildPorts),
}

impl Located {
    spec fn place(self) -> Place {
        match self {
            Located::Gate(g) => Place::Leaf(g),
            Located::Ports(ports) => Place::Instance {
                inputs: table_view(ports.input_port_targets@),
                outputs: table_view(ports.output_port_sources@),
            },
        }
    }
}

spec fn places_view(places: Seq<Located>) -> Seq<Place> {
    Seq::new(places.len(), |i: int| places[i].place())
}

/// Every bit in a port table is a source, or every one is a target.
spec fn table_ok(gates: Seq<GateView>, table: PortTable, sources: bool) -> bool {
    forall|p: int, b: int, k: int|
        0 <= p < table.len() && 0 <= b < table[p].len() && 0 <= k < table[p][b].len() ==> bit_ok(
            gates,
            #[trigger] table[p][b][k],
            sources,
        )
}

spec fn bit_ok(gates: Seq<GateView>, r: BitRef, sources: bool) -> bool {
    if sources {
        is_source(gates, r)
    } else {
        is_target(gates, r)
    }
}

/// A port table has as many ports and bits as the circuit declares.
spec fn same_size(ports: Seq<Vec<Vec<BitRef>>>, table: PortTable) -> bool {
    &&& table.len() == ports.len()
    &&& forall|p: int| 0 <= p < ports.len() ==> (#[trigger] table[p]).len() == ports[p]@.len()
}

/// A node went where it should: to a gate of its kind, or to ports of its circuit's size.
spec fn place_ok(
    lib: Map<Seq<char>, CircuitTemplate>,
    gates: Seq<GateView>,
    node: TemplateNode,
    place: Place,
) -> bool {
    match (node, place) {
        (TemplateNode::Subcircuit(sub), Place::Instance { inputs, outputs }) => {
            &&& lib.contains_key(sub@)
            &&& same_size(lib[sub@].input_ports@, inputs)
            &&& same_size(lib[sub@].output_ports@, outputs)
            &&& table_ok(gates, inputs, false)
            &&& table_ok(gates, outputs, true)
        },
        (TemplateNode::Subcircuit(_), Place::Leaf(_)) => false,
        (_, Place::Leaf(g)) => g < gates.len() && gates[g as int] == node.initial(),
        _ => false,
    }
}

spec fn places_ok(
    lib: Map<Seq<char>, CircuitTemplate>,
    gates: Seq<GateView>,
    nodes: Seq<TemplateNode>,
    places: Seq<Place>,
) -> bool {
    forall|i: int|
        0 <= i < places.len() && i < nodes.len() ==> #[trigger] place_ok(
            lib,
            gates,
            nodes[i],
            places[i],
        )
}

proof fn bit_stays_ok(gates: Seq<GateView>, more: Seq<GateView>, r: BitRef, sources: bool)
    requires
        bit_ok(gates, r, sources),
        gates.is_prefix_of(more),
    ensures
        bit_ok(more, r, sources),
{
    assert(more[r.0 as int] == gates[r.0 as int]);
}

proof fn table_stays_ok(
    gates: Seq<GateView>,
    more: Seq<GateView>,
    table: PortTable,
    sources: bool,
)
    requires
        table_ok(gates, table, sources),
        gates.is_prefix_of(more),
    ensures
        table_ok(more, table, sources),
{
    assert forall|p: int, b: int, k: int|
        0 <= p < table.len() && 0 <= b < table[p].len() && 0 <= k < table[p][b].len() implies bit_ok(
        more,
        #[trigger] table[p][b][k],
        sources,
    ) by {
        bit_stays_ok(gates, more, table[p][b][k], sources);
    }
}

proof fn places_stay_ok(
    lib: Map<Seq<char>, CircuitTemplate>,
    gates: Seq<GateView>,
    more: Seq<GateView>,
    nodes: Seq<TemplateNode>,
    places: Seq<Place>,
)
    requires
        places_ok(lib, gates, nodes, places),
        gates.is_prefix_of(more),
    ensures
        places_ok(lib, more, nodes, places),
{
    assert forall|i: int| 0 <= i < places.len() && i < nodes.len() implies #[trigger] place_ok(
        lib,
        more,
        nodes[i],
        places[i],
    ) by {
        assert(place_ok(lib, gates, nodes[i], places[i]));
        match places[i] {
            Place::Leaf(g) => {
                assert(more[g as int] == gates[g as int]);
            },
            Place::Instance { inputs, outputs } => {
                table_stays_ok(gates, more, inputs, false);
                table_stays_ok(gates, more, outputs, true);
            },
        }
    }
}

/// A copy of a list of bits.
pub(crate) fn copy_bits(list: &Vec<BitRef>) -> (r: Vec<BitRef>)
    ensures
        r@ == list@,
{
    let mut r: Vec<BitRef> = Vec::new();
    for i in 0..list.len()
        invariant
            r@ == list@.take(i as int),
    {
        r.push(list[i]);
        assert(r@ =~= list@.take(i + 1));
    }
    assert(list@.take(list@.len() as int) =~= list@);
    r
}

/// The sources or the targets behind a local bit.
fn resolve(places: &Vec<Located>, r: BitRef, sources: bool, Ghost(lib): Ghost<
    Map<Seq<char>, CircuitTemplate>,
>, Ghost(gates): Ghost<Seq<GateView>>, Ghost(nodes): Ghost<Seq<TemplateNode>>) -> (out: Vec<BitRef>)
    requires
        places@.len() == nodes.len(),
        places_ok(lib, gates, nodes, places_view(places@)),
        sources ==> readable(lib, nodes, r),
        !sources ==> writable(lib, nodes, r),
    ensures
        sources ==> out@ == sources_of(places_view(places@), r),
        !sources ==> out@ == targets_of(places_view(places@), r),
        forall|k: int| 0 <= k < out@.len() ==> bit_ok(gates, #[trigger] out@[k], sources),
{
    assert(place_ok(lib, gates, nodes[r.0 as int], places_view(places@)[r.0 as int]));
    match &places[r.0] {
        Located::Gate(g) => {
            let out: Vec<BitRef> = vec![(*g, r.1, r.2)];
            assert(out@ =~= seq![(*g, r.1, r.2)]);
            out
        },
        Located::Ports(ports) => {
            let ghost inputs = table_view(ports.input_port_targets@);
            let ghost outputs = table_view(ports.output_port_sources@);
            if sources {
                let q: usize = r.1 - ports.input_port_targets.len();
                assert(outputs[q as int].len() == ports.output_port_sources@[q as int]@.len());
                let out: Vec<BitRef> = copy_bits(&ports.output_port_sources[q][r.2 as usize]);
                assert forall|k: int| 0 <= k < out@.len() implies bit_ok(
                    gates,
                    #[trigger] out@[k],
                    true,
                ) by {
                    assert(bit_ok(gates, outputs[q as int][r.2 as int][k], true));
                }
                out
            } else {
                assert(inputs[r.1 as int].len() == ports.input_port_targets@[r.1 as int]@.len());
                let out: Vec<BitRef> = copy_bits(&ports.input_port_targets[r.1][r.2 as usize]);
                assert forall|k: int| 0 <= k < out@.len() implies bit_ok(
                    gates,
                    #[trigger] out@[k],
                    false,
                ) by {
                    assert(bit_ok(gates, inputs[r.1 as int][r.2 as int][k], false));
                }
                out
            }
        },
    }
}

/// The global bits behind a list of local bits.
fn resolve_list(places: &Vec<Located>, refs: &Vec<BitRef>, sources: bool, Ghost(lib): Ghost<
    Map<Seq<char>, CircuitTemplate>,
>, Ghost(gates): Ghost<Seq<GateView>>, Ghost(nodes): Ghost<Seq<TemplateNode>>) -> (out: Vec<BitRef>)
    requires
        places@.len() == nodes.len(),
        places_ok(lib, gates, nodes, places_view(places@)),
        forall|k: int|
            0 <= k < refs@.len() ==> (if sources {
                readable(lib, nodes, #[trigger] refs@[k])
            } else {
                writable(lib, nodes, refs@[k])
            }),
    ensures
        out@ == resolved(places_view(places@), refs@, sources, refs@.len()),
        forall|k: int| 0 <= k < out@.len() ==> bit_ok(gates, #[trigger] out@[k], sources),
{
    let mut out: Vec<BitRef> = Vec::new();
    for k in 0..refs.len()
        invariant
            places@.len() == nodes.len(),
            places_ok(lib, gates, nodes, places_view(places@)),
            forall|k: int|
                0 <= k < refs@.len() ==> (if sources {
                    readable(lib, nodes, #[trigger] refs@[k])
                } else {
                    writable(lib, nodes, refs@[k])
                }),
            out@ == resolved(places_view(places@), refs@, sources, k as nat),
            forall|k: int| 0 <= k < out@.len() ==> bit_ok(gates, #[trigger] out@[k], sources),
    {
        let ghost before = out@;
        let mut more: Vec<BitRef> = resolve(
            places,
            refs[k],
            sources,
            Ghost(lib),
            Ghost(gates),
            Ghost(nodes),
        );
        let ghost added = more@;
        out.append(&mut more);
        proof {
            assert(out@ =~= before + added);
            assert forall|j: int| 0 <= j < out@.len() implies bit_ok(
                gates,
                #[trigger] out@[j],
                sources,
            ) by {
                if j < before.len() {
                    assert(out@[j] == before[j]);
                } else {
                    assert(out@[j] == added[j - before.len()]);
                }
            }
        }
    }
    out
}

/// The global bits behind a circuit's ports.
fn resolve_ports(places: &Vec<Located>, ports: &Vec<Vec<Vec<BitRef>>>, sources: bool, Ghost(
    lib,
): Ghost<Map<Seq<char>, CircuitTemplate>>, Ghost(gates): Ghost<Seq<GateView>>, Ghost(nodes): Ghost<
    Seq<TemplateNode>,
>) -> (out: Vec<Vec<Vec<BitRef>>>)
    requires
        places@.len() == nodes.len(),
        places_ok(lib, gates, nodes, places_view(places@)),
        forall|p: int, b: int, k: int|
            0 <= p < ports@.len() && 0 <= b < ports@[p]@.len() && 0 <= k < ports@[p]@[b]@.len()
                ==> (if sources {
                readable(lib, nodes, #[trigger] ports@[p]@[b]@[k])
            } else {
                writable(lib, nodes, ports@[p]@[b]@[k])
            }),
    ensures
        table_view(out@) == resolved_ports(places_view(places@), ports@, sources),
        table_ok(gates, table_view(out@), sources),
        same_size(ports@, table_view(out@)),
{
    let ghost view = places_view(places@);
    let ghost want = resolved_ports(view, ports@, sources);
    let mut out: Vec<Vec<Vec<BitRef>>> = Vec::new();
    for p in 0..ports.len()
        invariant
            view == places_view(places@),
            want == resolved_ports(view, ports@, sources),
            places@.len() == nodes.len(),
            places_ok(lib, gates, nodes, view),
            forall|p: int, b: int, k: int|
                0 <= p < ports@.len() && 0 <= b < ports@[p]@.len() && 0 <= k < ports@[p]@[b]@.len()
                    ==> (if sources {
                    readable(lib, nodes, #[trigger] ports@[p]@[b]@[k])
                } else {
                    writable(lib, nodes, ports@[p]@[b]@[k])
                }),
            out@.len() == p,
            forall|q: int| 0 <= q < p ==> (#[trigger] out@[q])@.len() == ports@[q]@.len(),
            forall|q: int, b: int|
                0 <= q < p && 0 <= b < ports@[q]@.len() ==> (#[trigger] out@[q]@[b])@
                    == want[q][b],
            forall|q: int, b: int, k: int|
                0 <= q < p && 0 <= b < ports@[q]@.len() && 0 <= k < out@[q]@[b]@.len() ==> bit_ok(
                    gates,
                    #[trigger] out@[q]@[b]@[k],
                    sources,
                ),
    {
        let mut per_bit: Vec<Vec<BitRef>> = Vec::new();
        let width: usize = ports[p].len();
        for b in 0..width
            invariant
                p < ports@.len(),
                width == ports@[p as int]@.len(),
                view == places_view(places@),
                want == resolved_ports(view, ports@, sources),
                places@.len() == nodes.len(),
                places_ok(lib, gates, nodes, view),
                forall|p: int, b: int, k: int|
                    0 <= p < ports@.len() && 0 <= b < ports@[p]@.len() && 0 <= k
                        < ports@[p]@[b]@.len() ==> (if sources {
                        readable(lib, nodes, #[trigger] ports@[p]@[b]@[k])
                    } else {
                        writable(lib, nodes, ports@[p]@[b]@[k])
                    }),
                per_bit@.len() == b,
                forall|c: int| 0 <= c < b ==> (#[trigger] per_bit@[c])@ == want[p as int][c],
                forall|c: int, k: int|
                    0 <= c < b && 0 <= k < per_bit@[c]@.len() ==> bit_ok(
                        gates,
                        #[trigger] per_bit@[c]@[k],
                        sources,
                    ),
        {
            assert forall|k: int| 0 <= k < ports@[p as int]@[b as int]@.len() implies (if sources {
                readable(lib, nodes, #[trigger] ports@[p as int]@[b as int]@[k])
            } else {
                writable(lib, nodes, ports@[p as int]@[b as int]@[k])
            }) by {
            }
            per_bit.push(
                resolve_list(
                    places,
                    &ports[p][b],
                    sources,
                    Ghost(lib),
                    Ghost(gates),
                    Ghost(nodes),
                ),
            );
        }
        out.push(per_bit);
    }
    proof {
        let got = table_view(out@);
        assert forall|p: int| 0 <= p < ports@.len() implies #[trigger] got[p] == want[p] by {
            assert(out@[p]@.len() == ports@[p]@.len());
            assert forall|b: int| 0 <= b < want[p].len() implies got[p][b] == want[p][b] by {
                assert(out@[p]@[b]@ == want[p][b]);
            }
            assert(got[p] =~= want[p]);
        }
        assert(got =~= want);
        assert forall|p: int, b: int, k: int|
            0 <= p < got.len() && 0 <= b < got[p].len() && 0 <= k < got[p][b].len() implies bit_ok(
            gates,
            #[trigger] got[p][b][k],
            sources,
        ) by {
            assert(bit_ok(gates, out@[p]@[b]@[k], sources));
        }
    }
    out
}

/// Wires every source to every target.
fn connect_all(builder: &mut Builder, srcs: &Vec<BitRef>, dsts: &Vec<BitRef>)
    requires
        old(builder).wf(),
        forall|k: int|
            0 <= k < srcs@.len() ==> bit_ok(old(builder).view_gates(), #[trigger] srcs@[k], true),
        forall|k: int|
            0 <= k < dsts@.len() ==> bit_ok(old(builder).view_gates(), #[trigger] dsts@[k], false),
    ensures
        final(builder).wf(),
        final(builder).view_gates() == old(builder).view_gates(),
        final(builder).wires@ == old(builder).wires@ + all_pairs(srcs@, dsts@, srcs@.len()),
{
    let ghost gates = builder.view_gates();
    let ghost start = builder.wires@;
    for i in 0..srcs.len()
        invariant
            builder.wf(),
            builder.view_gates() == gates,
            forall|k: int| 0 <= k < srcs@.len() ==> bit_ok(gates, #[trigger] srcs@[k], true),
            forall|k: int| 0 <= k < dsts@.len() ==> bit_ok(gates, #[trigger] dsts@[k], false),
            builder.wires@ == start + all_pairs(srcs@, dsts@, i as nat),
    {
        let ghost row = Seq::new(dsts@.len(), |j: int| (srcs@[i as int], dsts@[j]));
        let ghost before = builder.wires@;
        for j in 0..dsts.len()
            invariant
                i < srcs@.len(),
                builder.wf(),
                builder.view_gates() == gates,
                forall|k: int| 0 <= k < srcs@.len() ==> bit_ok(gates, #[trigger] srcs@[k], true),
                forall|k: int| 0 <= k < dsts@.len() ==> bit_ok(gates, #[trigger] dsts@[k], false),
                row == Seq::new(dsts@.len(), |j: int| (srcs@[i as int], dsts@[j])),
                builder.wires@ == before + row.take(j as int),
        {
            assert(bit_ok(gates, srcs@[i as int], true));
            assert(bit_ok(gates, dsts@[j as int], false));
            builder.connect(srcs[i], dsts[j]);
            assert(builder.wires@ =~= before + row.take(j + 1));
        }
        assert(row.take(dsts@.len() as int) =~= row);
        assert(builder.wires@ =~= start + all_pairs(srcs@, dsts@, (i + 1) as nat));
    }
}

/// A copy of a list of names.
fn clone_names(list: &Vec<String>) -> (r: Vec<String>)
    ensures
        strings(r@) == strings(list@),
{
    let mut r: Vec<String> = Vec::new();
    for i in 0..list.len()
        invariant
            r@.len() == i,
            forall|j: int| 0 <= j < i ==> (#[trigger] r@[j])@ == list@[j]@,
    {
        r.push(list[i].clone());
    }
    assert(strings(r@) =~= strings(list@));
    r
}

/// Whether a name is in a list.
fn is_listed(list: &Vec<String>, name: &str) -> (r: bool)
    ensures
        r == strings(list@).contains(name@),
{
    for i in 0..list.len()
        invariant
            forall|j: int| 0 <= j < i ==> strings(list@)[j] != name@,
    {
        if text::same(list[i].as_str(), name) {
            assert(strings(list@)[i as int] == name@);
            return true;
        }
    }
    false
}

fn is_marker(t: &CircuitTemplate, node: usize) -> (r: bool)
    ensures
        r == t.port_marker_nodes@.contains(node),
{
    for i in 0..t.port_marker_nodes.len()
        invariant
            forall|j: int| 0 <= j < i ==> t.port_marker_nodes@[j] != node,
    {
        if t.port_marker_nodes[i] == node {
            return true;
        }
    }
    false
}

proof fn lay_out_fails(
    lib: Map<Seq<char>, CircuitTemplate>,
    t: CircuitTemplate,
    stack: Seq<Seq<char>>,
    k: nat,
    n: nat,
    base: nat,
)
    requires
        lib.dom().finite(),
        k <= n,
        lay_out(lib, t, stack, k, base) is Err,
    ensures
        lay_out(lib, t, stack, n, base) == lay_out(lib, t, stack, k, base),
    decreases n,
{
    if k < n {
        lay_out_fails(lib, t, stack, k, (n - 1) as nat, base);
    }
}

/// Elaborates one circuit into the builder, its instances included.
fn expand(
    name: &str,
    library: &Library,
    builder: &mut Builder,
    stack: &mut Vec<String>,
    is_entry: bool,
) -> (r: Result<(ChildPorts, Vec<Located>), NetlistError>)
    requires
        old(builder).wf(),
        library@.dom().finite(),
        can_elaborate(library@, name@, strings(old(stack)@), is_entry),
    ensures
        final(builder).wf(),
        match (
            r,
            elaborate(
                library@,
                name@,
                strings(old(stack)@),
                old(builder).view_gates().len(),
                is_entry,
            ),
        ) {
            (Ok((ports, places)), Ok(e)) => {
                &&& final(builder).view_gates() == old(builder).view_gates() + e.gates
                &&& final(builder).wires@ == old(builder).wires@ + e.wires
                &&& table_view(ports.input_port_targets@) == e.inputs
                &&& table_view(ports.output_port_sources@) == e.outputs
                &&& places_view(places@) == e.places
                &&& strings(final(stack)@) == strings(old(stack)@)
                &&& library@.contains_key(name@)
                &&& same_size(library@[name@].input_ports@, e.inputs)
                &&& same_size(library@[name@].output_ports@, e.outputs)
                &&& table_ok(final(builder).view_gates(), e.inputs, false)
                &&& table_ok(final(builder).view_gates(), e.outputs, true)
            },
            (Err(x), Err(y)) => x@ == y,
            _ => false,
        },
    decreases remaining(library@, strings(old(stack)@)),
{
    let ghost outer = strings(stack@);
    let ghost gates0 = builder.view_gates();
    let ghost wires0 = builder.wires@;
    let ghost base = gates0.len();
    if is_listed(stack, name) {
        let mut path: Vec<String> = clone_names(stack);
        path.push(name.to_owned());
        assert(strings(path@) =~= outer.push(name@));
        return Err(NetlistError::CircularSubcircuit(path));
    }
    let template: &CircuitTemplate = match library.get(name) {
        Some(t) => t,
        None => {
            return Err(NetlistError::UnknownSubcircuit(name.to_owned()));
        },
    };
    let ghost lib = library@;
    let ghost t = *template;
    let ghost inner = outer.push(name@);
    proof {
        remaining_shrinks(lib, outer, name@);
    }
    stack.push(name.to_owned());
    assert(strings(stack@) =~= inner);
    let mut places: Vec<Located> = Vec::new();
    let ghost mut laid = Layout { gates: Seq::empty(), wires: Seq::empty(), places: Seq::empty() };
    assert(builder.view_gates() =~= gates0 + laid.gates);
    assert(builder.wires@ =~= wires0 + laid.wires);
    assert(places_view(places@) =~= laid.places);
    for k in 0..template.nodes.len()
        invariant
            lib == library@,
            lib.dom().finite(),
            t == *template,
            lib.contains_key(name@),
            lib[name@] == t,
            outer == strings(old(stack)@),
            !outer.contains(name@),
            inner == outer.push(name@),
            strings(stack@) == inner,
            remaining(lib, inner) < remaining(lib, outer),
            can_elaborate(lib, name@, outer, is_entry),
            base == gates0.len(),
            gates0 == old(builder).view_gates(),
            builder.wf(),
            builder.view_gates() == gates0 + laid.gates,
            builder.wires@ == wires0 + laid.wires,
            places_view(places@) == laid.places,
            places@.len() == k,
            lay_out(lib, t, inner, k as nat, base) == Ok::<Layout, NetlistErrorView>(laid),
            places_ok(lib, builder.view_gates(), t.nodes@, laid.places),
    {
        let ghost before = builder.view_gates();
        let ghost so_far = laid;
        assert(t.nodes@[k as int].buildable());
        match &template.nodes[k] {
            TemplateNode::Subcircuit(sub) => {
                assert(can_elaborate(lib, sub@, inner, false));
                let (ports, _): (ChildPorts, Vec<Located>) = match expand(
                    sub.as_str(),
                    library,
                    builder,
                    stack,
                    false,
                ) {
                    Ok(r) => r,
                    Err(e) => {
                        proof {
                            lay_out_fails(
                                lib,
                                t,
                                inner,
                                (k + 1) as nat,
                                t.nodes@.len(),
                                base,
                            );
                        }
                        return Err(e);
                    },
                };
                places.push(Located::Ports(ports));
                proof {
                    laid = lay_out(lib, t, inner, (k + 1) as nat, base)->Ok_0;
                    assert(places_view(places@) =~= laid.places);
                    assert(builder.view_gates() =~= gates0 + laid.gates);
                    assert(builder.wires@ =~= wires0 + laid.wires);
                    places_stay_ok(lib, before, builder.view_gates(), t.nodes@, so_far.places);
                    assert forall|i: int|
                        0 <= i < laid.places.len() && i < t.nodes@.len() implies #[trigger] place_ok(
                        lib,
                        builder.view_gates(),
                        t.nodes@[i],
                        laid.places[i],
                    ) by {
                        if i < k {
                            assert(laid.places[i] == so_far.places[i]);
                            assert(place_ok(
                                lib,
                                builder.view_gates(),
                                t.nodes@[i],
                                so_far.places[i],
                            ));
                        }
                    }
                }
            },
            node => {
                if let Some(gate) = node.gate() {
                    let idx: usize = builder.add_gate(gate);
                    places.push(Located::Gate(idx));
                    proof {
                        laid = lay_out(lib, t, inner, (k + 1) as nat, base)->Ok_0;
                        assert(places_view(places@) =~= laid.places);
                        assert(builder.view_gates() =~= gates0 + laid.gates);
                        assert(builder.wires@ =~= wires0 + laid.wires);
                        places_stay_ok(lib, before, builder.view_gates(), t.nodes@, so_far.places);
                        assert forall|i: int|
                            0 <= i < laid.places.len() && i
                                < t.nodes@.len() implies #[trigger] place_ok(
                            lib,
                            builder.view_gates(),
                            t.nodes@[i],
                            laid.places[i],
                        ) by {
                            if i < k {
                                assert(laid.places[i] == so_far.places[i]);
                                assert(place_ok(
                                    lib,
                                    builder.view_gates(),
                                    t.nodes@[i],
                                    so_far.places[i],
                                ));
                            }
                        }
                    }
                }
            },
        }
    }
    let ghost gates1 = builder.view_gates();
    let ghost wires1 = builder.wires@;
    assert(template_ok(lib, t, is_entry));
    for k in 0..template.connections.len()
        invariant
            t == *template,
            lib == library@,
            template_ok(lib, t, is_entry),
            builder.wf(),
            builder.view_gates() == gates1,
            builder.wires@ == wires1 + connection_wires(t, laid.places, is_entry, k as nat),
            places_view(places@) == laid.places,
            places@.len() == t.nodes@.len(),
            places_ok(lib, gates1, t.nodes@, laid.places),
    {
        let (src, dst): (BitRef, BitRef) = template.connections[k];
        assert(t.connections@[k as int] == (src, dst));
        let skipped: bool = !is_entry && (is_marker(template, src.0) || is_marker(template, dst.0));
        if !skipped {
            assert(!unwired(t, is_entry, t.connections@[k as int]));
            let srcs: Vec<BitRef> = resolve(
                &places,
                src,
                true,
                Ghost(lib),
                Ghost(gates1),
                Ghost(t.nodes@),
            );
            let dsts: Vec<BitRef> = resolve(
                &places,
                dst,
                false,
                Ghost(lib),
                Ghost(gates1),
                Ghost(t.nodes@),
            );
            connect_all(builder, &srcs, &dsts);
        }
        assert(builder.wires@ =~= wires1 + connection_wires(
            t,
            laid.places,
            is_entry,
            (k + 1) as nat,
        ));
    }
    let input_port_targets: Vec<Vec<Vec<BitRef>>> = resolve_ports(
        &places,
        &template.input_ports,
        false,
        Ghost(lib),
        Ghost(gates1),
        Ghost(t.nodes@),
    );
    let output_port_sources: Vec<Vec<Vec<BitRef>>> = resolve_ports(
        &places,
        &template.output_ports,
        true,
        Ghost(lib),
        Ghost(gates1),
        Ghost(t.nodes@),
    );
    let ghost full = stack@;
    stack.pop();
    assert forall|j: int| 0 <= j < outer.len() implies strings(stack@)[j] == outer[j] by {
        assert(strings(full)[j] == inner[j]);
    }
    assert(strings(full).len() == inner.len());
    assert(strings(stack@) =~= outer);
    assert(builder.wires@ =~= wires0 + (laid.wires + connection_wires(
        t,
        laid.places,
        is_entry,
        t.connections@.len(),
    )));
    Ok((ChildPorts { input_port_targets, output_port_sources }, places))
}

/// Elaborates the circuit `entry` of a library into a flat netlist, every instance expanded.
pub fn flatten(entry: &str, library: &Library) -> (r: Result<Netlist, NetlistError>)
    requires
        can_elaborate(library@, entry@, Seq::empty(), true),
    ensures
        match (r, elaborate(library@, entry@, Seq::empty(), 0, true)) {
            (Ok(netlist), Ok(e)) => netlist.is_wired(e.gates, e.wires),
            (Err(x), Err(y)) => x@ == y,
            _ => false,
        },
{
    match flatten_with_entry_map(entry, library) {
        Ok((netlist, _)) => Ok(netlist),
        Err(e) => Err(e),
    }
}

/// Gate numbers of a circuit's own leaves, by node number.
pub open spec fn leaf_map(places: Seq<Place>) -> Map<usize, usize> {
    Map::new(
        |n: usize| n < places.len() && places[n as int] is Leaf,
        |n: usize| places[n as int]->Leaf_0,
    )
}

/// As [`flatten`], and says which gate each leaf of the entry circuit became. Nodes of nested
/// instances have no single gate and are not in the map.
pub fn flatten_with_entry_map(entry: &str, library: &Library) -> (r: Result<
    (Netlist, HashMap<usize, usize>),
    NetlistError,
>)
    requires
        can_elaborate(library@, entry@, Seq::empty(), true),
    ensures
        match (r, elaborate(library@, entry@, Seq::empty(), 0, true)) {
            (Ok((netlist, map)), Ok(e)) => netlist.is_wired(e.gates, e.wires) && map@ == leaf_map(
                e.places,
            ),
            (Err(x), Err(y)) => x@ == y,
            _ => false,
        },
{
    broadcast use vstd::std_specs::hash::group_hash_axioms;

    let mut builder: Builder = Builder::new();
    let mut stack: Vec<String> = Vec::new();
    proof {
        library.finite();
        assert(strings(stack@) =~= Seq::<Seq<char>>::empty());
    }
    match expand(entry, library, &mut builder, &mut stack, true) {
        Err(e) => Err(e),
        Ok((_, places)) => {
            let ghost e = elaborate(library@, entry@, Seq::empty(), 0, true)->Ok_0;
            let mut map: HashMap<usize, usize> = HashMap::new();
            for k in 0..places.len()
                invariant
                    forall|n: usize| #[trigger]
                        map@.contains_key(n) <==> n < k && places@[n as int] is Gate,
                    forall|n: usize| #[trigger]
                        map@.contains_key(n) ==> map@[n] == places@[n as int]->Gate_0,
            {
                if let Located::Gate(g) = &places[k] {
                    map.insert(k, *g);
                }
            }
            proof {
                assert forall|n: usize| leaf_map(e.places).contains_key(n) <==> #[trigger]
                    map@.contains_key(n) by {
                    if n < places@.len() {
                        assert(places_view(places@)[n as int] == places@[n as int].place());
                    }
                }
                assert(map@ =~= leaf_map(e.places));
                assert(builder.view_gates() =~= e.gates);
                assert(builder.wires@ =~= e.wires);
            }
            Ok(
                (
                    Netlist {
                        gates: builder.gates,
                        input_sources: builder.input_sources,
                        fanout: builder.fanout,
                    },
                    map,
                ),
            )
        },
    }
}

/// A bit drives another if and only if there is a wire between them.
pub proof fn drivers_are_wired(wires: Seq<Wire>, src: BitRef, dst: BitRef)
    ensures
        drivers(wires, dst).contains(src) <==> wires.contains((src, dst)),
    decreases wires.len(),
{
    if wires.len() > 0 {
        let init = wires.drop_last();
        drivers_are_wired(init, src, dst);
        wired_prefix(wires, (src, dst));
        let before = drivers(init, dst);
        if wires.last().1 == dst {
            pushed_contains(before, wires.last().0, src);
        }
    }
}

/// A bit reads another if and only if there is a wire between them.
pub proof fn consumers_are_wired(wires: Seq<Wire>, src: BitRef, dst: BitRef)
    ensures
        consumers(wires, src).contains(dst) <==> wires.contains((src, dst)),
    decreases wires.len(),
{
    if wires.len() > 0 {
        let init = wires.drop_last();
        consumers_are_wired(init, src, dst);
        wired_prefix(wires, (src, dst));
        let before = consumers(init, src);
        if wires.last().0 == src {
            pushed_contains(before, wires.last().1, dst);
        }
    }
}

proof fn wired_prefix(wires: Seq<Wire>, w: Wire)
    requires
        wires.len() > 0,
    ensures
        wires.contains(w) <==> wires.drop_last().contains(w) || wires.last() == w,
{
    if wires.contains(w) {
        let i = choose|i: int| 0 <= i < wires.len() && wires[i] == w;
        if i < wires.len() - 1 {
            assert(wires.drop_last()[i] == w);
        }
    }
    if wires.drop_last().contains(w) {
        let i = choose|i: int| 0 <= i < wires.drop_last().len() && wires.drop_last()[i] == w;
        assert(wires[i] == w);
    }
    if wires.last() == w {
        assert(wires[wires.len() - 1] == w);
    }
}

proof fn pushed_contains(s: Seq<BitRef>, x: BitRef, y: BitRef)
    ensures
        s.push(x).contains(y) <==> s.contains(y) || x == y,
{
    if s.push(x).contains(y) {
        let i = choose|i: int| 0 <= i < s.push(x).len() && s.push(x)[i] == y;
        if i < s.len() {
            assert(s[i] == y);
        }
    }
    if s.contains(y) {
        let i = choose|i: int| 0 <= i < s.len() && s[i] == y;
        assert(s.push(x)[i] == y);
    }
    if x == y {
        assert(s.push(x)[s.len() as int] == y);
    }
}

/// Every instance of a circuit is a copy of it: its gates do not depend on where they are
/// placed.
pub proof fn instances_are_copies(
    lib: Map<Seq<char>, CircuitTemplate>,
    name: Seq<char>,
    stack: Seq<Seq<char>>,
    base: nat,
    other: nat,
    is_entry: bool,
)
    requires
        lib.dom().finite(),
    ensures
        match (
            elaborate(lib, name, stack, base, is_entry),
            elaborate(lib, name, stack, other, is_entry),
        ) {
            (Ok(a), Ok(b)) => a.gates == b.gates,
            (Err(x), Err(y)) => x == y,
            _ => false,
        },
    decreases remaining(lib, stack), 0nat,
{
    if !stack.contains(name) && lib.contains_key(name) {
        remaining_shrinks(lib, stack, name);
        layouts_are_copies(
            lib,
            lib[name],
            stack.push(name),
            lib[name].nodes@.len(),
            base,
            other,
        );
    }
}

proof fn layouts_are_copies(
    lib: Map<Seq<char>, CircuitTemplate>,
    t: CircuitTemplate,
    stack: Seq<Seq<char>>,
    k: nat,
    base: nat,
    other: nat,
)
    requires
        lib.dom().finite(),
    ensures
        match (lay_out(lib, t, stack, k, base), lay_out(lib, t, stack, k, other)) {
            (Ok(a), Ok(b)) => a.gates == b.gates,
            (Err(x), Err(y)) => x == y,
            _ => false,
        },
    decreases remaining(lib, stack), k,
{
    if k > 0 {
        layouts_are_copies(lib, t, stack, (k - 1) as nat, base, other);
        if let Ok(l) = lay_out(lib, t, stack, (k - 1) as nat, base) {
            if let TemplateNode::Subcircuit(sub) = t.nodes@[k - 1] {
                instances_are_copies(
                    lib,
                    sub@,
                    stack,
                    base + l.gates.len(),
                    other + l.gates.len(),
                    false,
                );
            }
        }
    }
}

/// All gates that a library's circuits consist of are, in their initial state, ones of which
/// something holds.
pub open spec fn leaves_satisfy(
    lib: Map<Seq<char>, CircuitTemplate>,
    holds: spec_fn(GateView) -> bool,
) -> bool {
    forall|name: Seq<char>, i: int|
        lib.contains_key(name) && 0 <= i < lib[name].nodes@.len() && !(
        lib[name].nodes@[i] is Subcircuit) ==> holds((#[trigger] lib[name].nodes@[i]).initial())
}

/// Elaboration makes no gates of its own: what holds of all gates of the circuits in a library
/// holds of all gates of an elaborated one.
pub proof fn elaborated_gates_are_leaves(
    lib: Map<Seq<char>, CircuitTemplate>,
    name: Seq<char>,
    stack: Seq<Seq<char>>,
    base: nat,
    is_entry: bool,
    holds: spec_fn(GateView) -> bool,
)
    requires
        lib.dom().finite(),
        leaves_satisfy(lib, holds),
    ensures
        elaborate(lib, name, stack, base, is_entry) matches Ok(e) ==> forall|i: int|
            0 <= i < e.gates.len() ==> holds(#[trigger] e.gates[i]),
    decreases remaining(lib, stack), 0nat,
{
    if !stack.contains(name) && lib.contains_key(name) {
        remaining_shrinks(lib, stack, name);
        laid_out_gates_are_leaves(
            lib,
            name,
            stack.push(name),
            lib[name].nodes@.len(),
            base,
            holds,
        );
    }
}

proof fn laid_out_gates_are_leaves(
    lib: Map<Seq<char>, CircuitTemplate>,
    name: Seq<char>,
    stack: Seq<Seq<char>>,
    k: nat,
    base: nat,
    holds: spec_fn(GateView) -> bool,
)
    requires
        lib.dom().finite(),
        leaves_satisfy(lib, holds),
        lib.contains_key(name),
        k <= lib[name].nodes@.len(),
    ensures
        lay_out(lib, lib[name], stack, k, base) matches Ok(l) ==> forall|i: int|
            0 <= i < l.gates.len() ==> holds(#[trigger] l.gates[i]),
    decreases remaining(lib, stack), k,
{
    if k > 0 {
        laid_out_gates_are_leaves(lib, name, stack, (k - 1) as nat, base, holds);
        if let Ok(l) = lay_out(lib, lib[name], stack, (k - 1) as nat, base) {
            if let TemplateNode::Subcircuit(sub) = lib[name].nodes@[k - 1] {
                elaborated_gates_are_leaves(
                    lib,
                    sub@,
                    stack,
                    base + l.gates.len(),
                    false,
                    holds,
                );
            } else {
                assert(holds(lib[name].nodes@[k - 1].initial()));
            }
        }
    }
}

/// A circuit's own leaves become gates one for one and in order: each leaf becomes a gate
/// configured as it says, and no two leaves the same. An instance is no gate of its own.
pub proof fn leaves_become_gates(
    lib: Map<Seq<char>, CircuitTemplate>,
    t: CircuitTemplate,
    stack: Seq<Seq<char>>,
    k: nat,
    base: nat,
)
    requires
        lib.dom().finite(),
        k <= t.nodes@.len(),
    ensures
        lay_out(lib, t, stack, k, base) matches Ok(l) ==> base + l.gates.len() <= usize::MAX ==> {
            &&& l.places.len() == k
            &&& forall|i: int|
                0 <= i < k ==> match #[trigger] l.places[i] {
                    Place::Leaf(g) => base <= g < base + l.gates.len() && l.gates[g - base]
                        == t.nodes@[i].initial() && !(t.nodes@[i] is Subcircuit),
                    Place::Instance { .. } => t.nodes@[i] is Subcircuit,
                }
            &&& forall|i: int, j: int|
                0 <= i < j < k && l.places[i] is Leaf && l.places[j] is Leaf ==> (
                #[trigger] l.places[i])->Leaf_0 < (#[trigger] l.places[j])->Leaf_0
        },
    decreases k,
{
    if k > 0 {
        leaves_become_gates(lib, t, stack, (k - 1) as nat, base);
    }
}

/// A bit belongs to one of the gates from `lo` up to `hi`.
pub open spec fn is_within(lo: int, hi: int, r: BitRef) -> bool {
    lo <= r.0 < hi
}

/// Wires run among the gates from `lo` up to `hi`.
pub open spec fn wires_within(lo: int, hi: int, wires: Seq<Wire>) -> bool {
    forall|i: int|
        0 <= i < wires.len() ==> is_within(lo, hi, (#[trigger] wires[i]).0) && is_within(
            lo,
            hi,
            wires[i].1,
        )
}

/// All bits of a list belong to the gates from `lo` up to `hi`.
pub open spec fn bits_within(lo: int, hi: int, bits: Seq<BitRef>) -> bool {
    forall|i: int| 0 <= i < bits.len() ==> is_within(lo, hi, #[trigger] bits[i])
}

/// The bits behind ports belong to the gates from `lo` up to `hi`.
pub open spec fn table_within(lo: int, hi: int, table: PortTable) -> bool {
    forall|p: int, b: int|
        0 <= p < table.len() && 0 <= b < table[p].len() ==> bits_within(
            lo,
            hi,
            #[trigger] table[p][b],
        )
}

spec fn place_within(
    lib: Map<Seq<char>, CircuitTemplate>,
    lo: int,
    hi: int,
    node: TemplateNode,
    place: Place,
) -> bool {
    match (node, place) {
        (TemplateNode::Subcircuit(sub), Place::Instance { inputs, outputs }) => {
            &&& lib.contains_key(sub@)
            &&& same_size(lib[sub@].input_ports@, inputs)
            &&& same_size(lib[sub@].output_ports@, outputs)
            &&& table_within(lo, hi, inputs)
            &&& table_within(lo, hi, outputs)
        },
        (TemplateNode::Subcircuit(_), Place::Leaf(_)) => false,
        (_, Place::Leaf(g)) => lo <= g < hi,
        _ => false,
    }
}

spec fn places_within(
    lib: Map<Seq<char>, CircuitTemplate>,
    lo: int,
    hi: int,
    nodes: Seq<TemplateNode>,
    places: Seq<Place>,
) -> bool {
    &&& places.len() <= nodes.len()
    &&& forall|i: int|
        0 <= i < places.len() ==> #[trigger] place_within(lib, lo, hi, nodes[i], places[i])
}

proof fn table_stays_within(lo: int, mid: int, hi: int, table: PortTable)
    requires
        table_within(lo, mid, table),
        mid <= hi,
    ensures
        table_within(lo, hi, table),
{
    assert forall|p: int, b: int| 0 <= p < table.len() && 0 <= b < table[p].len() implies bits_within(
        lo,
        hi,
        #[trigger] table[p][b],
    ) by {
        assert(bits_within(lo, mid, table[p][b]));
    }
}

proof fn table_starts_lower(lo: int, mid: int, hi: int, table: PortTable)
    requires
        table_within(mid, hi, table),
        lo <= mid,
    ensures
        table_within(lo, hi, table),
{
    assert forall|p: int, b: int| 0 <= p < table.len() && 0 <= b < table[p].len() implies bits_within(
        lo,
        hi,
        #[trigger] table[p][b],
    ) by {
        assert(bits_within(mid, hi, table[p][b]));
    }
}

proof fn places_stay_within(
    lib: Map<Seq<char>, CircuitTemplate>,
    lo: int,
    mid: int,
    hi: int,
    nodes: Seq<TemplateNode>,
    places: Seq<Place>,
)
    requires
        places_within(lib, lo, mid, nodes, places),
        mid <= hi,
    ensures
        places_within(lib, lo, hi, nodes, places),
{
    assert forall|i: int| 0 <= i < places.len() implies #[trigger] place_within(
        lib,
        lo,
        hi,
        nodes[i],
        places[i],
    ) by {
        assert(place_within(lib, lo, mid, nodes[i], places[i]));
        if let Place::Instance { inputs, outputs } = places[i] {
            table_stays_within(lo, mid, hi, inputs);
            table_stays_within(lo, mid, hi, outputs);
        }
    }
}

proof fn sources_within(
    lib: Map<Seq<char>, CircuitTemplate>,
    lo: int,
    hi: int,
    nodes: Seq<TemplateNode>,
    places: Seq<Place>,
    r: BitRef,
)
    requires
        places_within(lib, lo, hi, nodes, places),
        places.len() == nodes.len(),
        readable(lib, nodes, r),
    ensures
        bits_within(lo, hi, sources_of(places, r)),
{
    assert(place_within(lib, lo, hi, nodes[r.0 as int], places[r.0 as int]));
    if let Place::Instance { inputs, outputs } = places[r.0 as int] {
        let p = r.1 - inputs.len();
        assert(outputs[p].len() > r.2);
        assert(bits_within(lo, hi, outputs[p][r.2 as int]));
    }
}

proof fn targets_within(
    lib: Map<Seq<char>, CircuitTemplate>,
    lo: int,
    hi: int,
    nodes: Seq<TemplateNode>,
    places: Seq<Place>,
    r: BitRef,
)
    requires
        places_within(lib, lo, hi, nodes, places),
        places.len() == nodes.len(),
        writable(lib, nodes, r),
    ensures
        bits_within(lo, hi, targets_of(places, r)),
{
    assert(place_within(lib, lo, hi, nodes[r.0 as int], places[r.0 as int]));
    if let Place::Instance { inputs, .. } = places[r.0 as int] {
        assert(inputs[r.1 as int].len() > r.2);
        assert(bits_within(lo, hi, inputs[r.1 as int][r.2 as int]));
    }
}

proof fn resolved_within(
    lib: Map<Seq<char>, CircuitTemplate>,
    lo: int,
    hi: int,
    nodes: Seq<TemplateNode>,
    places: Seq<Place>,
    refs: Seq<BitRef>,
    sources: bool,
    k: nat,
)
    requires
        places_within(lib, lo, hi, nodes, places),
        places.len() == nodes.len(),
        k <= refs.len(),
        forall|i: int|
            0 <= i < refs.len() ==> if sources {
                readable(lib, nodes, #[trigger] refs[i])
            } else {
                writable(lib, nodes, refs[i])
            },
    ensures
        bits_within(lo, hi, resolved(places, refs, sources, k)),
    decreases k,
{
    if k > 0 {
        resolved_within(lib, lo, hi, nodes, places, refs, sources, (k - 1) as nat);
        let r = refs[k - 1];
        if sources {
            sources_within(lib, lo, hi, nodes, places, r);
        } else {
            targets_within(lib, lo, hi, nodes, places, r);
        }
    }
}

proof fn ports_within(
    lib: Map<Seq<char>, CircuitTemplate>,
    lo: int,
    hi: int,
    nodes: Seq<TemplateNode>,
    places: Seq<Place>,
    ports: Seq<Vec<Vec<BitRef>>>,
    sources: bool,
)
    requires
        places_within(lib, lo, hi, nodes, places),
        places.len() == nodes.len(),
        forall|p: int, b: int, k: int|
            0 <= p < ports.len() && 0 <= b < ports[p]@.len() && 0 <= k < ports[p]@[b]@.len()
                ==> if sources {
                readable(lib, nodes, #[trigger] ports[p]@[b]@[k])
            } else {
                writable(lib, nodes, ports[p]@[b]@[k])
            },
    ensures
        table_within(lo, hi, resolved_ports(places, ports, sources)),
        same_size(ports, resolved_ports(places, ports, sources)),
{
    let table = resolved_ports(places, ports, sources);
    assert forall|p: int, b: int| 0 <= p < table.len() && 0 <= b < table[p].len() implies bits_within(
        lo,
        hi,
        #[trigger] table[p][b],
    ) by {
        let refs = ports[p]@[b]@;
        assert forall|i: int| 0 <= i < refs.len() implies if sources {
            readable(lib, nodes, #[trigger] refs[i])
        } else {
            writable(lib, nodes, refs[i])
        } by {
            assert(refs[i] == ports[p]@[b]@[i]);
        }
        resolved_within(lib, lo, hi, nodes, places, refs, sources, refs.len());
    }
}

proof fn pairs_within(lo: int, hi: int, srcs: Seq<BitRef>, dsts: Seq<BitRef>, k: nat)
    requires
        bits_within(lo, hi, srcs),
        bits_within(lo, hi, dsts),
        k <= srcs.len(),
    ensures
        wires_within(lo, hi, all_pairs(srcs, dsts, k)),
    decreases k,
{
    if k > 0 {
        pairs_within(lo, hi, srcs, dsts, (k - 1) as nat);
        assert(is_within(lo, hi, srcs[k - 1]));
    }
}

proof fn connections_within(
    lib: Map<Seq<char>, CircuitTemplate>,
    lo: int,
    hi: int,
    t: CircuitTemplate,
    places: Seq<Place>,
    is_entry: bool,
    k: nat,
)
    requires
        template_ok(lib, t, is_entry),
        places_within(lib, lo, hi, t.nodes@, places),
        places.len() == t.nodes@.len(),
        k <= t.connections@.len(),
    ensures
        wires_within(lo, hi, connection_wires(t, places, is_entry, k)),
    decreases k,
{
    if k > 0 {
        connections_within(lib, lo, hi, t, places, is_entry, (k - 1) as nat);
        let c = t.connections@[k - 1];
        if !unwired(t, is_entry, c) {
            sources_within(lib, lo, hi, t.nodes@, places, c.0);
            targets_within(lib, lo, hi, t.nodes@, places, c.1);
            let srcs = sources_of(places, c.0);
            pairs_within(lo, hi, srcs, targets_of(places, c.1), srcs.len());
        }
    }
}

/// An instance keeps to itself: its wires run among its own gates, and the bits behind its ports
/// belong to them.
pub proof fn instances_keep_to_themselves(
    lib: Map<Seq<char>, CircuitTemplate>,
    name: Seq<char>,
    stack: Seq<Seq<char>>,
    base: nat,
    is_entry: bool,
)
    requires
        lib.dom().finite(),
        can_elaborate(lib, name, stack, is_entry),
    ensures
        elaborate(lib, name, stack, base, is_entry) matches Ok(e) ==> base + e.gates.len()
            <= usize::MAX ==> {
            let end = base + e.gates.len();
            &&& wires_within(base as int, end as int, e.wires)
            &&& table_within(base as int, end as int, e.inputs)
            &&& table_within(base as int, end as int, e.outputs)
        },
    decreases remaining(lib, stack), 0nat,
{
    if !stack.contains(name) && lib.contains_key(name) {
        let t = lib[name];
        remaining_shrinks(lib, stack, name);
        layouts_keep_to_themselves(lib, name, stack.push(name), t.nodes@.len(), base);
        if let Ok(l) = lay_out(lib, t, stack.push(name), t.nodes@.len(), base) {
            if base + l.gates.len() <= usize::MAX {
                let end = base + l.gates.len();
                connections_within(
                    lib,
                    base as int,
                    end as int,
                    t,
                    l.places,
                    is_entry,
                    t.connections@.len(),
                );
                ports_within(lib, base as int, end as int, t.nodes@, l.places, t.input_ports@, false);
                ports_within(lib, base as int, end as int, t.nodes@, l.places, t.output_ports@, true);
            }
        }
    }
}

proof fn layouts_keep_to_themselves(
    lib: Map<Seq<char>, CircuitTemplate>,
    name: Seq<char>,
    stack: Seq<Seq<char>>,
    k: nat,
    base: nat,
)
    requires
        lib.dom().finite(),
        lib.contains_key(name),
        k <= lib[name].nodes@.len(),
        forall|i: int|
            0 <= i < lib[name].nodes@.len() ==> (#[trigger] lib[name].nodes@[i] matches
                TemplateNode::Subcircuit(sub) ==> can_elaborate(lib, sub@, stack, false)),
    ensures
        lay_out(lib, lib[name], stack, k, base) matches Ok(l) ==> base + l.gates.len()
            <= usize::MAX ==> {
            let end = base + l.gates.len();
            &&& l.places.len() == k
            &&& wires_within(base as int, end as int, l.wires)
            &&& places_within(lib, base as int, end as int, lib[name].nodes@, l.places)
        },
    decreases remaining(lib, stack), k,
{
    if k > 0 {
        let t = lib[name];
        layouts_keep_to_themselves(lib, name, stack, (k - 1) as nat, base);
        let now = lay_out(lib, t, stack, k, base);
        if let Ok(l) = lay_out(lib, t, stack, (k - 1) as nat, base) {
            if now is Ok && base + now->Ok_0.gates.len() <= usize::MAX {
                let mid = base + l.gates.len();
                let end = base + now->Ok_0.gates.len();
                places_stay_within(lib, base as int, mid as int, end as int, t.nodes@, l.places);
                if let TemplateNode::Subcircuit(sub) = t.nodes@[k - 1] {
                    instances_keep_to_themselves(lib, sub@, stack, mid, false);
                    let e = elaborate(lib, sub@, stack, mid, false)->Ok_0;
                    table_starts_lower(base as int, mid as int, end as int, e.inputs);
                    table_starts_lower(base as int, mid as int, end as int, e.outputs);
                }
                let after = now->Ok_0;
                assert forall|i: int| 0 <= i < k implies #[trigger] place_within(
                    lib,
                    base as int,
                    end as int,
                    t.nodes@[i],
                    after.places[i],
                ) by {
                    if i < k - 1 {
                        assert(after.places[i] == l.places[i]);
                        assert(place_within(
                            lib,
                            base as int,
                            end as int,
                            t.nodes@[i],
                            l.places[i],
                        ));
                    }
                }
            }
        }
    }
}

} // verus!
