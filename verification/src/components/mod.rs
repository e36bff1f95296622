//! The built-in gates.
//!
//! [`Gate`] is one flat enum; what each kind does is split by category over this module's
//! submodules, and the [`Component`] methods here dispatch to them. Every contract speaks of
//! [`GateView`], the mathematical content of a gate, and of its specification functions:
//! `eval` gives what a gate becomes in an evaluation together with its output pins, and so on.
use vstd::prelude::*;
use crate::plugin_abi;
use crate::plugin_abi::{
    ActionError, ActionErrorView, Bit, Component, ReadoutError, Signal, Value, ValueView,
};

pub mod arithmetic;
pub mod behaviour;
pub mod devices;
pub mod io;
pub mod logic;
pub mod memory;
pub mod plexers;
pub mod signal;
pub mod state;
pub mod wiring;

pub use io::DotMatrixInput;
pub use memory::{RamBus, Trigger};
pub use wiring::ExtendMode;

verus! {

/// A built-in gate: its configuration and, where it has one, its run-time state.
#[derive(Debug, Clone, PartialEq)]
pub enum Gate {
    And { bits: u8, inputs: usize },
    Or { bits: u8, inputs: usize },
    Not { bits: u8 },
    /// `And` followed by `Not`.
    Nand { bits: u8, inputs: usize },
    /// `Or` followed by `Not`.
    Nor { bits: u8, inputs: usize },
    /// Exactly one input is `One`; for two inputs that is the parity.
    Xor { bits: u8, inputs: usize },
    /// `Xor` followed by `Not`.
    Xnor { bits: u8, inputs: usize },
    /// Identity with a gate's delay.
    Buffer { bits: u8 },
    /// Identity while the control pin is `One`, floating while it is `Zero`. Inputs: data,
    /// enable.
    ControlledBuffer { bits: u8 },
    /// A source whose value is fixed at instantiation.
    Constant { bits: u8, value: u32 },
    /// A source whose value changes through actions only.
    InputPin { bits: u8, value: Signal },
    /// A sink that keeps what its input last read.
    OutputPin { bits: u8, value: Signal },
    /// A weak source: its point reads `to` where no other gate drives it. The simulation
    /// applies that rule when it gathers a gate's inputs; it loses to every real driver.
    PullResistor { to: Bit },
    /// Widens or narrows a signal. Inputs: data, and the fill bit in mode `Input`.
    BitExtender { in_bits: u8, out_bits: u8, mode: ExtendMode },
    /// A seven-segment display with a dot. Inputs: digit, dot. `value` is the eight segments.
    HexDigit { value: Signal },
    /// Passes its input while its gate pin is `conducts_on`. Inputs: input, gate.
    Transistor { bits: u8, conducts_on: Bit },
    /// A square wave. Not a timer of its own: its level is a function of the simulation's one
    /// tick counter, `high`, `low` and the parity of `clicks`, the number of manual toggles.
    Clock { high: u64, low: u64, clicks: u64, sending: Bit },
    /// Latches `d` into `value` when `trigger` fires on `ck` and `en` is not `Zero`; `clr`
    /// clears at once. A `d` that is not fully defined is ignored. Inputs: d, ck, clr, en.
    Register { bits: u8, trigger: Trigger, value: u32, last_clock: Bit },
    /// Read-only memory. Inputs: addr, cs.
    Rom { addr_bits: u8, data_bits: u8, contents: Vec<u32>, held_data: Signal },
    /// Random-access memory. Inputs: addr, cs, oe, clr, clk, then the sensed data line, or
    /// with a separate bus we and din.
    Ram {
        addr_bits: u8,
        data_bits: u8,
        bus: RamBus,
        contents: Vec<u32>,
        last_clock: Bit,
        held_data: Signal,
    },
    /// Routes one of its data inputs to its output. Inputs: data lines, select, enable if any.
    Mux { bits: u8, select_bits: u8, has_enable: bool, disabled_zero: bool },
    /// Routes its data input to one of its outputs. Inputs: select, enable if any, data.
    Demux { bits: u8, select_bits: u8, has_enable: bool, disabled_zero: bool, tristate: bool },
    /// Asserts one of its outputs. Inputs: select, enable if any.
    Decoder { select_bits: u8, has_enable: bool, disabled_zero: bool, tristate: bool },
    /// The index of the highest asserted line. Inputs: data lines, enable. Outputs: index,
    /// enable out, group signal.
    PriorityEncoder { select_bits: u8, disabled_zero: bool },
    /// `in0 + in1 + c_in`. Outputs: sum, carry out.
    Adder { bits: u8 },
    /// `in0 - in1 - b_in`. Outputs: difference, borrow out.
    Subtractor { bits: u8 },
    /// Compares two words. Outputs: greater, equal, less.
    Comparator { bits: u8, signed: bool },
    /// `in0 * in1 + c_in`. Outputs: low word, high word.
    Multiplier { bits: u8 },
    /// `upper:in0` divided by `in1`. Outputs: quotient, remainder.
    Divider { bits: u8 },
    /// A grid of lights, row by row from the top left.
    DotMatrix { rows: u8, cols: u8, input: DotMatrixInput, grid: Signal },
    /// A text terminal: `row_data` are the committed rows, `last_row` the row in progress.
    /// Inputs: clear, ck, we, in.
    Tty {
        cols: u8,
        rows: u8,
        trigger: Trigger,
        last_clock: Bit,
        row_data: Vec<Vec<char>>,
        last_row: Vec<char>,
        row: usize,
    },
    /// A queue of typed characters. Inputs: clear, ck, re. Outputs: available, character.
    Keyboard { capacity: u16, trigger: Trigger, last_clock: Bit, buffer: Vec<char>, cursor: usize },
}

/// The mathematical content of a [`Gate`].
#[verifier::ext_equal]
pub enum GateView {
    And { bits: u8, inputs: usize },
    Or { bits: u8, inputs: usize },
    Not { bits: u8 },
    Nand { bits: u8, inputs: usize },
    Nor { bits: u8, inputs: usize },
    Xor { bits: u8, inputs: usize },
    Xnor { bits: u8, inputs: usize },
    Buffer { bits: u8 },
    ControlledBuffer { bits: u8 },
    Constant { bits: u8, value: u32 },
    InputPin { bits: u8, value: Seq<Bit> },
    OutputPin { bits: u8, value: Seq<Bit> },
    PullResistor { to: Bit },
    BitExtender { in_bits: u8, out_bits: u8, mode: ExtendMode },
    HexDigit { value: Seq<Bit> },
    Transistor { bits: u8, conducts_on: Bit },
    Clock { high: u64, low: u64, clicks: u64, sending: Bit },
    Register { bits: u8, trigger: Trigger, value: u32, last_clock: Bit },
    Rom { addr_bits: u8, data_bits: u8, contents: Seq<u32>, held_data: Seq<Bit> },
    Ram {
        addr_bits: u8,
        data_bits: u8,
        bus: RamBus,
        contents: Seq<u32>,
        last_clock: Bit,
        held_data: Seq<Bit>,
    },
    Mux { bits: u8, select_bits: u8, has_enable: bool, disabled_zero: bool },
    Demux { bits: u8, select_bits: u8, has_enable: bool, disabled_zero: bool, tristate: bool },
    Decoder { select_bits: u8, has_enable: bool, disabled_zero: bool, tristate: bool },
    PriorityEncoder { select_bits: u8, disabled_zero: bool },
    Adder { bits: u8 },
    Subtractor { bits: u8 },
    Comparator { bits: u8, signed: bool },
    Multiplier { bits: u8 },
    Divider { bits: u8 },
    DotMatrix { rows: u8, cols: u8, input: DotMatrixInput, grid: Seq<Bit> },
    Tty {
        cols: u8,
        rows: u8,
        trigger: Trigger,
        last_clock: Bit,
        row_data: Seq<Seq<char>>,
        last_row: Seq<char>,
        row: usize,
    },
    Keyboard { capacity: u16, trigger: Trigger, last_clock: Bit, buffer: Seq<char>, cursor: usize },
}

/// The contents of a list of character rows.
pub open spec fn rows_view(rows: Seq<Vec<char>>) -> Seq<Seq<char>> {
    Seq::new(rows.len(), |i: int| rows[i]@)
}

impl View for Gate {
    type V = GateView;

    open spec fn view(&self) -> GateView {
        match *self {
            Gate::And { bits, inputs } => GateView::And { bits, inputs },
            Gate::Or { bits, inputs } => GateView::Or { bits, inputs },
            Gate::Not { bits } => GateView::Not { bits },
            Gate::Nand { bits, inputs } => GateView::Nand { bits, inputs },
            Gate::Nor { bits, inputs } => GateView::Nor { bits, inputs },
            Gate::Xor { bits, inputs } => GateView::Xor { bits, inputs },
            Gate::Xnor { bits, inputs } => GateView::Xnor { bits, inputs },
            Gate::Buffer { bits } => GateView::Buffer { bits },
            Gate::ControlledBuffer { bits } => GateView::ControlledBuffer { bits },
            Gate::Constant { bits, value } => GateView::Constant { bits, value },
            Gate::InputPin { bits, value } => GateView::InputPin { bits, value: value@ },
            Gate::OutputPin { bits, value } => GateView::OutputPin { bits, value: value@ },
            Gate::PullResistor { to } => GateView::PullResistor { to },
            Gate::BitExtender { in_bits, out_bits, mode } => GateView::BitExtender {
                in_bits,
                out_bits,
                mode,
            },
            Gate::HexDigit { value } => GateView::HexDigit { value: value@ },
            Gate::Transistor { bits, conducts_on } => GateView::Transistor { bits, conducts_on },
            Gate::Clock { high, low, clicks, sending } => GateView::Clock {
                high,
                low,
                clicks,
                sending,
            },
            Gate::Register { bits, trigger, value, last_clock } => GateView::Register {
                bits,
                trigger,
                value,
                last_clock,
            },
            Gate::Rom { addr_bits, data_bits, contents, held_data } => GateView::Rom {
                addr_bits,
                data_bits,
                contents: contents@,
                held_data: held_data@,
            },
            Gate::Ram { addr_bits, data_bits, bus, contents, last_clock, held_data } => {
                GateView::Ram {
                    addr_bits,
                    data_bits,
                    bus,
                    contents: contents@,
                    last_clock,
                    held_data: held_data@,
                }
            },
            Gate::Mux { bits, select_bits, has_enable, disabled_zero } => GateView::Mux {
                bits,
                select_bits,
                has_enable,
                disabled_zero,
            },
            Gate::Demux { bits, select_bits, has_enable, disabled_zero, tristate } => {
                GateView::Demux { bits, select_bits, has_enable, disabled_zero, tristate }
            },
            Gate::Decoder { select_bits, has_enable, disabled_zero, tristate } => {
                GateView::Decoder { select_bits, has_enable, disabled_zero, tristate }
            },
            Gate::PriorityEncoder { select_bits, disabled_zero } => GateView::PriorityEncoder {
                select_bits,
                disabled_zero,
            },
            Gate::Adder { bits } => GateView::Adder { bits },
            Gate::Subtractor { bits } => GateView::Subtractor { bits },
            Gate::Comparator { bits, signed } => GateView::Comparator { bits, signed },
            Gate::Multiplier { bits } => GateView::Multiplier { bits },
            Gate::Divider { bits } => GateView::Divider { bits },
            Gate::DotMatrix { rows, cols, input, grid } => GateView::DotMatrix {
                rows,
                cols,
                input,
                grid: grid@,
            },
            Gate::Tty { cols, rows, trigger, last_clock, row_data, last_row, row } => {
                GateView::Tty {
                    cols,
                    rows,
                    trigger,
                    last_clock,
                    row_data: rows_view(row_data@),
                    last_row: last_row@,
                    row,
                }
            },
            Gate::Keyboard { capacity, trigger, last_clock, buffer, cursor } => {
                GateView::Keyboard { capacity, trigger, last_clock, buffer: buffer@, cursor }
            },
        }
    }
}

/// The six categories of gates.
pub enum Category {
    Logic,
    Wiring,
    Memory,
    Plexers,
    Arithmetic,
    Io,
}

impl GateView {
    pub open spec fn category(self) -> Category {
        match self {
            GateView::And { .. }
            | GateView::Or { .. }
            | GateView::Not { .. }
            | GateView::Nand { .. }
            | GateView::Nor { .. }
            | GateView::Xor { .. }
            | GateView::Xnor { .. }
            | GateView::Buffer { .. }
            | GateView::ControlledBuffer { .. } => Category::Logic,
            GateView::Constant { .. }
            | GateView::InputPin { .. }
            | GateView::OutputPin { .. }
            | GateView::PullResistor { .. }
            | GateView::BitExtender { .. }
            | GateView::HexDigit { .. }
            | GateView::Transistor { .. } => Category::Wiring,
            GateView::Clock { .. }
            | GateView::Register { .. }
            | GateView::Rom { .. }
            | GateView::Ram { .. } => Category::Memory,
            GateView::Mux { .. }
            | GateView::Demux { .. }
            | GateView::Decoder { .. }
            | GateView::PriorityEncoder { .. } => Category::Plexers,
            GateView::Adder { .. }
            | GateView::Subtractor { .. }
            | GateView::Comparator { .. }
            | GateView::Multiplier { .. }
            | GateView::Divider { .. } => Category::Arithmetic,
            GateView::DotMatrix { .. }
            | GateView::Tty { .. }
            | GateView::Keyboard { .. } => Category::Io,
        }
    }

    /// The configuration and the state are ones to work with.
    pub open spec fn valid(self) -> bool {
        match self.category() {
            Category::Logic => true,
            Category::Wiring => wiring::valid(self),
            Category::Memory => memory::valid(self),
            Category::Plexers => plexers::valid(self),
            Category::Arithmetic => arithmetic::valid(self),
            Category::Io => io::valid(self),
        }
    }

    /// A gate can be evaluated on these input pins.
    pub open spec fn accepts(self, ins: Seq<Seq<Bit>>) -> bool {
        match self.category() {
            Category::Logic => logic::accepts(self, ins),
            Category::Wiring => wiring::accepts(self, ins),
            Category::Memory => memory::accepts(self, ins),
            Category::Plexers => plexers::accepts(self, ins),
            Category::Arithmetic => arithmetic::accepts(self, ins),
            Category::Io => io::accepts(self, ins),
        }
    }

    /// A gate is valid and can be evaluated on as many input pins as it has.
    pub open spec fn runnable(self) -> bool {
        &&& self.valid()
        &&& match self {
            GateView::And { bits, inputs } => bits > 0 ==> inputs > 0,
            GateView::Or { bits, inputs } => bits > 0 ==> inputs > 0,
            GateView::Nand { bits, inputs } => bits > 0 ==> inputs > 0,
            GateView::Nor { bits, inputs } => bits > 0 ==> inputs > 0,
            _ => true,
        }
    }

    pub open spec fn input_count(self) -> nat {
        match self.category() {
            Category::Logic => logic::input_count(self),
            Category::Wiring => wiring::input_count(self),
            Category::Memory => memory::input_count(self),
            Category::Plexers => plexers::input_count(self),
            Category::Arithmetic => arithmetic::input_count(self),
            Category::Io => io::input_count(self),
        }
    }

    pub open spec fn output_count(self) -> nat {
        match self {
            GateView::OutputPin { .. } => 0,
            GateView::HexDigit { .. } => 0,
            GateView::Comparator { .. } => 3,
            _ => match self.category() {
                Category::Plexers => plexers::output_count(self),
                Category::Arithmetic => 2,
                Category::Io => io::output_count(self),
                _ => 1,
            },
        }
    }

    /// The declared width of an input pin.
    pub open spec fn input_width(self, pin: int) -> u8 {
        match self.category() {
            Category::Logic => logic::input_width(self, pin),
            Category::Wiring => wiring::input_width(self, pin),
            Category::Memory => memory::input_width(self, pin),
            Category::Plexers => plexers::input_width(self, pin),
            Category::Arithmetic => arithmetic::input_width(self, pin),
            Category::Io => io::input_width(self, pin),
        }
    }

    /// The declared width of an output pin.
    pub open spec fn output_width(self, pin: int) -> u8 {
        match self.category() {
            Category::Logic => logic::output_width(self),
            Category::Wiring => wiring::output_width(self),
            Category::Memory => memory::output_width(self),
            Category::Plexers => plexers::output_width(self, pin),
            Category::Arithmetic => arithmetic::output_width(self, pin),
            Category::Io => io::output_width(self, pin),
        }
    }

    /// Propagation delay in ticks. Wider arithmetic settles slower, and sources and sinks
    /// have none.
    pub open spec fn delay(self) -> u64 {
        match self {
            GateView::Constant { .. }
            | GateView::InputPin { .. }
            | GateView::OutputPin { .. }
            | GateView::PullResistor { .. }
            | GateView::HexDigit { .. }
            | GateView::Clock { .. }
            | GateView::DotMatrix { .. }
            | GateView::Tty { .. } => 0,
            GateView::Register { .. } => 8,
            GateView::Rom { .. } | GateView::Ram { .. } => 10,
            GateView::Mux { .. }
            | GateView::Demux { .. }
            | GateView::Decoder { .. }
            | GateView::PriorityEncoder { .. } => 3,
            GateView::Adder { bits } => (bits + 2) as u64,
            GateView::Comparator { bits, .. } => (bits + 2) as u64,
            GateView::Subtractor { bits } => (bits + 4) as u64,
            GateView::Multiplier { bits } => (bits * (bits + 2)) as u64,
            GateView::Divider { bits } => (bits * (bits + 2)) as u64,
            _ => 1,
        }
    }

    /// What becomes of a gate in an evaluation, and its output pins.
    pub open spec fn eval(self, ins: Seq<Seq<Bit>>) -> (GateView, Seq<Seq<Bit>>) {
        match self.category() {
            Category::Logic => (self, logic::outputs(self, ins)),
            Category::Wiring => wiring::evaluated(self, ins),
            Category::Memory => memory::evaluated(self, ins),
            Category::Plexers => (self, plexers::outputs(self, ins)),
            Category::Arithmetic => (self, arithmetic::outputs(self, ins)),
            Category::Io => io::evaluated(self, ins),
        }
    }

    /// A gate after a reset: its configuration in its initial state.
    pub open spec fn reset(self) -> GateView {
        match self.category() {
            Category::Wiring => wiring::reset(self),
            Category::Memory => memory::reset(self),
            Category::Io => io::reset(self),
            _ => self,
        }
    }

    /// The saved state.
    pub open spec fn saved(self) -> Seq<u8> {
        match self.category() {
            Category::Wiring => wiring::saved(self),
            Category::Memory => memory::saved(self),
            Category::Io => io::saved(self),
            _ => Seq::empty(),
        }
    }

    /// A gate after its state is restored from bytes.
    pub open spec fn restored(self, s: Seq<u8>) -> GateView {
        match self.category() {
            Category::Wiring => wiring::restored(self, s),
            Category::Memory => memory::restored(self, s),
            Category::Io => io::restored(self, s),
            _ => self,
        }
    }

    pub open spec fn action_names(self) -> Seq<Seq<char>> {
        match self.category() {
            Category::Wiring => wiring::action_names(self),
            Category::Memory => memory::action_names(self),
            Category::Io => io::action_names(self),
            _ => Seq::empty(),
        }
    }

    /// The action can be performed or refused now.
    pub open spec fn can_invoke(self, name: Seq<char>) -> bool {
        match self.category() {
            Category::Wiring => wiring::can_invoke(self, name),
            Category::Memory => memory::can_invoke(self, name),
            _ => true,
        }
    }

    /// A gate after an action, and the action's outcome. A refused action changes nothing.
    pub open spec fn invoke(self, name: Seq<char>, arg: Option<ValueView>) -> (
        GateView,
        Result<(), ActionErrorView>,
    ) {
        match self.category() {
            Category::Wiring => wiring::invoked(self, name, arg),
            Category::Memory => memory::invoked(self, name, arg),
            Category::Io => io::invoked(self, name, arg),
            _ => (self, Err(ActionErrorView::UnknownAction(name))),
        }
    }

    pub open spec fn readout_names(self) -> Seq<Seq<char>> {
        match self {
            GateView::InputPin { .. }
            | GateView::OutputPin { .. }
            | GateView::HexDigit { .. }
            | GateView::Clock { .. }
            | GateView::Register { .. } => seq!["get"@],
            _ => if self.category() is Io {
                io::readout_names(self)
            } else {
                Seq::empty()
            },
        }
    }

    /// What a readout gives: a value, or the name back where there is none.
    pub open spec fn read(self, name: Seq<char>) -> Result<ValueView, Seq<char>> {
        match self.category() {
            Category::Wiring => wiring::readout(self, name),
            Category::Memory => memory::readout(self, name),
            Category::Io => io::readout(self, name),
            _ => Err(name),
        }
    }

    /// Gates that have input pins whose width can be asked for.
    pub open spec fn has_inputs(self) -> bool {
        !(self is Constant || self is InputPin || self is PullResistor || self is Clock)
    }

    /// Gates that have output pins whose width can be asked for.
    pub open spec fn has_outputs(self) -> bool {
        !(self is OutputPin || self is HexDigit || self is DotMatrix || self is Tty)
    }

    /// The signals that a gate keeps have their declared widths.
    pub open spec fn widths_kept(self) -> bool {
        match self {
            GateView::InputPin { bits, value } => value.len() == bits,
            GateView::OutputPin { bits, value } => value.len() == bits,
            GateView::HexDigit { value } => value.len() == 8,
            _ => memory::widths_kept(self),
        }
    }

    /// A gate can take `n` more actions, whichever they are.
    pub open spec fn tolerates(self, n: nat) -> bool {
        match self {
            GateView::InputPin { bits, value } => bits <= 64 && (bits == 1 ==> value.len() >= 1),
            GateView::Clock { clicks, .. } => clicks + n <= u64::MAX,
            GateView::Register { bits, .. } => bits >= 1,
            _ => true,
        }
    }

    /// Evaluating twice on the same inputs is the same as evaluating once. That is so of all
    /// gates but terminals and keyboards with a level trigger.
    pub open spec fn settles(self) -> bool {
        match self {
            GateView::Tty { trigger, .. } => trigger == Trigger::Rising || trigger
                == Trigger::Falling,
            GateView::Keyboard { trigger, .. } => trigger == Trigger::Rising || trigger
                == Trigger::Falling,
            _ => true,
        }
    }
}

/// What a gate keeps through evaluations, actions and ticks: its pins, delay and kind.
pub open spec fn same_shape(g: GateView, h: GateView) -> bool {
    &&& g.category() == h.category()
    &&& g.input_count() == h.input_count()
    &&& g.output_count() == h.output_count()
    &&& forall|pin: int| g.input_width(pin) == h.input_width(pin)
    &&& forall|pin: int| g.output_width(pin) == h.output_width(pin)
    &&& g.delay() == h.delay()
    &&& g is PullResistor == h is PullResistor
    &&& g is Clock == h is Clock
    &&& g.settles() == h.settles()
}

/// A runnable gate can be evaluated on as many input pins as it has.
pub proof fn runnable_accepts(g: GateView, ins: Seq<Seq<Bit>>)
    requires
        g.runnable(),
        ins.len() == g.input_count(),
    ensures
        g.accepts(ins),
{
}

/// An evaluation keeps a gate valid and its shape as it was, and gives one signal per output
/// pin.
pub proof fn eval_keeps_shape(g: GateView, ins: Seq<Seq<Bit>>)
    requires
        g.valid(),
    ensures
        g.eval(ins).0.valid(),
        g.runnable() ==> g.eval(ins).0.runnable(),
        same_shape(g, g.eval(ins).0),
        g.eval(ins).1.len() == g.output_count(),
{
    if g is Tty {
        tty_eval_keeps_valid(g, ins);
    }
    if let GateView::Ram { addr_bits, .. } = g {
        signal::value_bound(ins[0], addr_bits as nat);
    }
}

proof fn tty_eval_keeps_valid(g: GateView, ins: Seq<Seq<Bit>>)
    requires
        g is Tty,
        g.valid(),
    ensures
        g.eval(ins).0.valid(),
{
    if let GateView::Tty { cols, rows, row_data, last_row, row, .. } = g {
        let t = io::TtyText { rows: row_data, last: last_row, row };
        let c = io::typed_char(ins[3]);
        let done = t.committed();
        assert(done.rows.len() == rows - 1 && done.row < rows && done.last.len() == 0);
        assert forall|i: int| 0 <= i < done.rows.len() implies (#[trigger] done.rows[i]).len()
            <= io::row_limit(cols) by {
            if row < row_data.len() {
                if i != row {
                    assert(done.rows[i] == row_data[i]);
                }
            } else if i + 1 < row_data.len() {
                assert(done.rows[i] == row_data[i + 1]);
            }
        }
        let after = t.typed(cols, c);
        assert(after.rows.len() == rows - 1 && after.row < rows);
        assert forall|i: int| 0 <= i < after.rows.len() implies (#[trigger] after.rows[i]).len()
            <= io::row_limit(cols) by {
        }
    }
}

/// An action keeps a gate valid and its shape as it was; a refused one keeps the whole gate.
pub proof fn invoke_keeps_shape(g: GateView, name: Seq<char>, arg: Option<ValueView>)
    requires
        g.valid(),
    ensures
        g.invoke(name, arg).0.valid(),
        g.runnable() ==> g.invoke(name, arg).0.runnable(),
        same_shape(g, g.invoke(name, arg).0),
        g.invoke(name, arg).1 is Err ==> g.invoke(name, arg).0 == g,
{
}

/// A tick keeps a gate valid and its shape as it was.
pub proof fn tick_keeps_shape(g: GateView, tick: u64)
    requires
        g.valid(),
    ensures
        memory::ticked(g, tick).valid(),
        g.runnable() ==> memory::ticked(g, tick).runnable(),
        same_shape(g, memory::ticked(g, tick)),
{
}

/// A reset keeps a gate valid and its shape as it was, and resetting twice is resetting once.
pub proof fn reset_keeps_shape(g: GateView)
    requires
        g.valid(),
    ensures
        g.reset().valid(),
        same_shape(g, g.reset()),
        g.reset().reset() == g.reset(),
{
    assert(g.reset().reset() =~= g.reset());
}

/// Saving a gate and restoring the bytes into any gate of the same configuration gives the
/// saved gate back.
pub proof fn state_round_trip(g: GateView, h: GateView)
    requires
        g.valid(),
        h.valid(),
        g.widths_kept(),
        g.reset() == h.reset(),
    ensures
        h.restored(g.saved()) == g,
{
    match g.category() {
        Category::Wiring => {
            wiring::wiring_round_trip(g, h);
        },
        Category::Memory => {
            memory::memory_round_trip(g, h);
        },
        Category::Io => {
            io::io_round_trip(g, h);
        },
        _ => {},
    }
}

/// Evaluations keep the declared widths of the signals that a gate keeps.
pub proof fn eval_keeps_widths(g: GateView, ins: Seq<Seq<Bit>>)
    requires
        g.widths_kept(),
    ensures
        g.eval(ins).0.widths_kept(),
{
}

/// Sources change through actions and ticks only: an evaluation leaves them as they are and
/// takes nothing from its inputs.
pub proof fn sources_ignore_their_inputs(g: GateView, a: Seq<Seq<Bit>>, b: Seq<Seq<Bit>>)
    requires
        g is Constant || g is InputPin || g is PullResistor || g is Clock,
    ensures
        g.eval(a).0 == g,
        g.eval(a) == g.eval(b),
{
}

/// Every output signal has its pin's declared width.
pub proof fn output_widths(g: GateView, ins: Seq<Seq<Bit>>, pin: int)
    requires
        g.valid(),
        g.widths_kept(),
        0 <= pin < g.output_count(),
    ensures
        g.eval(ins).1[pin].len() == g.output_width(pin),
{
    match g.category() {
        Category::Logic => {
            assert(logic::outputs(g, ins)[0].len() == logic::output_width(g));
        },
        Category::Wiring => {},
        Category::Memory => {},
        Category::Plexers => {
            assert(plexers::outputs(g, ins)[pin].len() == plexers::output_width(g, pin));
        },
        Category::Arithmetic => {
            assert(arithmetic::outputs(g, ins)[pin].len() == arithmetic::output_width(g, pin));
        },
        Category::Io => {},
    }
}

/// Evaluating a gate again on the same inputs changes neither it nor its outputs.
pub proof fn eval_is_idempotent(g: GateView, ins: Seq<Seq<Bit>>)
    requires
        g.valid(),
        g.settles(),
    ensures
        g.eval(ins).0.eval(ins) == g.eval(ins),
{
    let once = g.eval(ins);
    let twice = once.0.eval(ins);
    if let GateView::Ram { addr_bits, .. } = g {
        signal::value_bound(ins[0], addr_bits as nat);
    }
    if let GateView::DotMatrix { rows, cols, input, grid } = g {
        let p = io::painted(rows as int, cols as int, input, grid, ins);
        assert(io::painted(rows as int, cols as int, input, p, ins) =~= p);
    }
    assert(twice.0 =~= once.0);
    assert(twice.1 =~= once.1);
}

impl Gate {
    /// Propagation delay in ticks.
    pub fn delay(&self) -> (r: u64)
        ensures
            r == self@.delay(),
    {
        match self {
            Gate::Constant { .. }
            | Gate::InputPin { .. }
            | Gate::OutputPin { .. }
            | Gate::PullResistor { .. }
            | Gate::HexDigit { .. }
            | Gate::Clock { .. }
            | Gate::DotMatrix { .. }
            | Gate::Tty { .. } => 0,
            Gate::Register { .. } => 8,
            Gate::Rom { .. } | Gate::Ram { .. } => 10,
            Gate::Mux { .. }
            | Gate::Demux { .. }
            | Gate::Decoder { .. }
            | Gate::PriorityEncoder { .. } => 3,
            Gate::Adder { bits } => *bits as u64 + 2,
            Gate::Comparator { bits, .. } => *bits as u64 + 2,
            Gate::Subtractor { bits } => *bits as u64 + 4,
            Gate::Multiplier { bits } => square_delay(*bits),
            Gate::Divider { bits } => square_delay(*bits),
            _ => 1,
        }
    }

    /// Brings a clock's level up to date with the simulation's tick counter, and says whether
    /// it changed. Every other gate is left alone.
    pub fn tick(&mut self, global_tick: u64) -> (changed: bool)
        requires
            memory::can_tick(old(self)@),
        ensures
            final(self)@ == memory::ticked(old(self)@, global_tick),
            changed == (final(self)@ != old(self)@),
    {
        match self {
            Gate::Clock { .. } => self.tick_memory(global_tick),
            _ => false,
        }
    }

    /// The declared width of an input pin.
    pub fn input_width(&self, pin: usize) -> (r: u8)
        requires
            self@.has_inputs(),
            plexers::valid(self@),
        ensures
            r == self@.input_width(pin as int),
    {
        match self {
            Gate::Register { .. } | Gate::Rom { .. } | Gate::Ram { .. } => {
                self.input_width_memory(pin)
            },
            Gate::OutputPin { .. }
            | Gate::BitExtender { .. }
            | Gate::HexDigit { .. }
            | Gate::Transistor { .. } => self.input_width_wiring(pin),
            Gate::Mux { .. }
            | Gate::Demux { .. }
            | Gate::Decoder { .. }
            | Gate::PriorityEncoder { .. } => self.input_width_plexers(pin),
            Gate::Adder { .. }
            | Gate::Subtractor { .. }
            | Gate::Comparator { .. }
            | Gate::Multiplier { .. }
            | Gate::Divider { .. } => self.input_width_arithmetic(pin),
            Gate::DotMatrix { .. } | Gate::Tty { .. } | Gate::Keyboard { .. } => {
                self.input_width_io(pin)
            },
            _ => self.input_width_logic(pin),
        }
    }

    /// The declared width of an output pin.
    pub fn output_width(&self, pin: usize) -> (r: u8)
        requires
            self@.has_outputs(),
        ensures
            r == self@.output_width(pin as int),
    {
        match self {
            Gate::Clock { .. } | Gate::Register { .. } | Gate::Rom { .. } | Gate::Ram { .. } => {
                self.output_width_memory()
            },
            Gate::Constant { .. }
            | Gate::InputPin { .. }
            | Gate::PullResistor { .. }
            | Gate::BitExtender { .. }
            | Gate::Transistor { .. } => self.output_width_wiring(),
            Gate::Mux { .. }
            | Gate::Demux { .. }
            | Gate::Decoder { .. }
            | Gate::PriorityEncoder { .. } => self.output_width_plexers(pin),
            Gate::Adder { .. }
            | Gate::Subtractor { .. }
            | Gate::Comparator { .. }
            | Gate::Multiplier { .. }
            | Gate::Divider { .. } => self.output_width_arithmetic(pin),
            Gate::Keyboard { .. } => self.output_width_io(pin),
            _ => self.output_width_logic(),
        }
    }

    /// How many input pins there are.
    pub(crate) fn count_inputs(&self) -> (r: usize)
        requires
            plexers::valid(self@),
        ensures
            r == self@.input_count(),
    {
        match self {
            Gate::Clock { .. } | Gate::Register { .. } | Gate::Rom { .. } | Gate::Ram { .. } => {
                self.input_count_memory()
            },
            Gate::Constant { .. }
            | Gate::InputPin { .. }
            | Gate::OutputPin { .. }
            | Gate::PullResistor { .. }
            | Gate::BitExtender { .. }
            | Gate::HexDigit { .. }
            | Gate::Transistor { .. } => self.input_count_wiring(),
            Gate::Mux { .. }
            | Gate::Demux { .. }
            | Gate::Decoder { .. }
            | Gate::PriorityEncoder { .. } => self.input_count_plexers(),
            Gate::Adder { .. }
            | Gate::Subtractor { .. }
            | Gate::Comparator { .. }
            | Gate::Multiplier { .. }
            | Gate::Divider { .. } => self.input_count_arithmetic(),
            Gate::DotMatrix { .. } | Gate::Tty { .. } | Gate::Keyboard { .. } => {
                self.input_count_io()
            },
            _ => self.input_count_logic(),
        }
    }

    /// How many output pins there are.
    pub(crate) fn count_outputs(&self) -> (r: usize)
        requires
            plexers::valid(self@),
        ensures
            r == self@.output_count(),
    {
        match self {
            Gate::OutputPin { .. }
            | Gate::HexDigit { .. }
            | Gate::DotMatrix { .. }
            | Gate::Tty { .. } => 0,
            Gate::Comparator { .. } => 3,
            Gate::Mux { .. }
            | Gate::Demux { .. }
            | Gate::Decoder { .. }
            | Gate::PriorityEncoder { .. } => self.output_count_plexers(),
            Gate::Adder { .. }
            | Gate::Subtractor { .. }
            | Gate::Multiplier { .. }
            | Gate::Divider { .. } => 2,
            Gate::Keyboard { .. } => 2,
            _ => 1,
        }
    }
}

fn square_delay(bits: u8) -> (r: u64)
    ensures
        r == bits * (bits + 2),
{
    proof {
        assert(0 <= bits * (bits + 2) <= 65535) by (nonlinear_arith)
            requires
                bits <= 255,
        ;
    }
    bits as u64 * (bits as u64 + 2)
}

impl Component for Gate {
    open spec fn ready(&self) -> bool {
        self@.valid()
    }

    open spec fn accepts(&self, inputs: Seq<Seq<Bit>>) -> bool {
        self@.accepts(inputs)
    }

    open spec fn can_invoke(&self, name: Seq<char>) -> bool {
        self@.can_invoke(name)
    }

    fn init(&mut self)
        ensures
            final(self)@ == old(self)@.reset(),
    {
        proof {
            reset_keeps_shape(self@);
        }
        match self {
            Gate::Clock { .. } | Gate::Register { .. } | Gate::Rom { .. } | Gate::Ram { .. } => {
                self.init_memory()
            },
            Gate::InputPin { .. } | Gate::OutputPin { .. } | Gate::HexDigit { .. } => {
                self.init_wiring()
            },
            Gate::DotMatrix { .. } | Gate::Tty { .. } | Gate::Keyboard { .. } => self.init_io(),
            _ => {},
        }
    }

    fn input_count(&self) -> (r: usize)
        ensures
            r == self@.input_count(),
    {
        self.count_inputs()
    }

    fn output_count(&self) -> (r: usize)
        ensures
            r == self@.output_count(),
    {
        self.count_outputs()
    }

    fn eval(&mut self, inputs: &[Signal]) -> (out: Vec<Signal>)
        ensures
            (final(self)@, plugin_abi::signals(out@)) == old(self)@.eval(
                plugin_abi::signals(inputs@),
            ),
    {
        proof {
            eval_keeps_shape(self@, plugin_abi::signals(inputs@));
        }
        match self {
            Gate::Clock { .. } | Gate::Register { .. } | Gate::Rom { .. } | Gate::Ram { .. } => {
                self.eval_memory(inputs)
            },
            Gate::Constant { .. }
            | Gate::InputPin { .. }
            | Gate::OutputPin { .. }
            | Gate::PullResistor { .. }
            | Gate::BitExtender { .. }
            | Gate::HexDigit { .. }
            | Gate::Transistor { .. } => self.eval_wiring(inputs),
            Gate::Mux { .. }
            | Gate::Demux { .. }
            | Gate::Decoder { .. }
            | Gate::PriorityEncoder { .. } => self.eval_plexers(inputs),
            Gate::Adder { .. }
            | Gate::Subtractor { .. }
            | Gate::Comparator { .. }
            | Gate::Multiplier { .. }
            | Gate::Divider { .. } => self.eval_arithmetic(inputs),
            Gate::DotMatrix { .. } | Gate::Tty { .. } | Gate::Keyboard { .. } => {
                self.eval_io(inputs)
            },
            _ => self.eval_logic(inputs),
        }
    }

    fn serialize_state(&self) -> (out: Vec<u8>)
        ensures
            out@ == self@.saved(),
    {
        match self {
            Gate::Clock { .. } | Gate::Register { .. } | Gate::Rom { .. } | Gate::Ram { .. } => {
                self.serialize_memory()
            },
            Gate::InputPin { .. } | Gate::OutputPin { .. } | Gate::HexDigit { .. } => {
                self.serialize_wiring()
            },
            Gate::DotMatrix { .. } | Gate::Tty { .. } | Gate::Keyboard { .. } => {
                self.serialize_io()
            },
            _ => Vec::new(),
        }
    }

    fn deserialize_state(&mut self, state: &[u8])
        ensures
            final(self)@ == old(self)@.restored(state@),
    {
        match self {
            Gate::Clock { .. } | Gate::Register { .. } | Gate::Rom { .. } | Gate::Ram { .. } => {
                self.deserialize_memory(state)
            },
            Gate::InputPin { .. } | Gate::OutputPin { .. } | Gate::HexDigit { .. } => {
                self.deserialize_wiring(state)
            },
            Gate::DotMatrix { .. } | Gate::Tty { .. } | Gate::Keyboard { .. } => {
                self.deserialize_io(state)
            },
            _ => {},
        }
    }

    fn actions(&self) -> (r: Vec<&'static str>)
        ensures
            plugin_abi::names(r@) == self@.action_names(),
    {
        match self {
            Gate::Clock { .. } | Gate::Register { .. } => self.actions_memory(),
            Gate::InputPin { .. } => self.actions_wiring(),
            Gate::Keyboard { .. } => self.actions_io(),
            _ => {
                let none: Vec<&'static str> = Vec::new();
                assert(plugin_abi::names(none@) =~= self@.action_names());
                none
            },
        }
    }

    fn invoke(&mut self, name: &str, arg: Option<Value>) -> (r: Result<(), ActionError>)
        ensures
            (final(self)@, plugin_abi::action_outcome(r)) == old(self)@.invoke(
                name@,
                plugin_abi::arg_view(arg),
            ),
    {
        proof {
            invoke_keeps_shape(self@, name@, plugin_abi::arg_view(arg));
        }
        match self {
            Gate::Clock { .. } | Gate::Register { .. } => self.invoke_memory(name, arg),
            Gate::InputPin { .. } => self.invoke_wiring(name, arg),
            Gate::Keyboard { .. } => self.invoke_io(name, arg),
            _ => Err(ActionError::UnknownAction(name.to_owned())),
        }
    }

    fn readouts(&self) -> (r: Vec<&'static str>)
        ensures
            plugin_abi::names(r@) == self@.readout_names(),
    {
        match self {
            Gate::InputPin { .. }
            | Gate::OutputPin { .. }
            | Gate::HexDigit { .. }
            | Gate::Clock { .. }
            | Gate::Register { .. } => {
                let one: Vec<&'static str> = vec!["get"];
                assert(plugin_abi::names(one@) =~= self@.readout_names());
                one
            },
            Gate::DotMatrix { .. } | Gate::Tty { .. } | Gate::Keyboard { .. } => {
                self.readouts_io()
            },
            _ => {
                let none: Vec<&'static str> = Vec::new();
                assert(plugin_abi::names(none@) =~= self@.readout_names());
                none
            },
        }
    }

    fn read(&self, name: &str) -> (r: Result<Value, ReadoutError>)
        ensures
            plugin_abi::readout_outcome(r) == self@.read(name@),
    {
        match self {
            Gate::Clock { .. } | Gate::Register { .. } => self.read_memory(name),
            Gate::InputPin { .. } | Gate::OutputPin { .. } | Gate::HexDigit { .. } => {
                self.read_wiring(name)
            },
            Gate::DotMatrix { .. } | Gate::Tty { .. } | Gate::Keyboard { .. } => {
                self.read_io(name)
            },
            _ => Err(ReadoutError::UnknownReadout(name.to_owned())),
        }
    }
}

/// A gate that can take an action can take every action, and one action less afterwards.
pub proof fn actions_are_tolerated(g: GateView, n: nat, name: Seq<char>, arg: Option<ValueView>)
    requires
        n > 0,
        g.tolerates(n),
    ensures
        g.can_invoke(name),
        g.invoke(name, arg).0.tolerates((n - 1) as nat),
{
}

/// An evaluation leaves a gate as many actions as it could take.
pub proof fn evaluations_are_tolerated(g: GateView, n: nat, ins: Seq<Seq<Bit>>)
    requires
        g.tolerates(n),
    ensures
        g.eval(ins).0.tolerates(n),
{
}

} // verus!
