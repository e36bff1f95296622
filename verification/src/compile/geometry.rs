//! Where components have their pins.
//!
//! A component's pins have fixed places relative to its own, turned with its facing. Two pins
//! are connected where their places coincide, or where wires lead from one to the other; how
//! far apart they are drawn means nothing.
use vstd::prelude::*;
use vstd::arithmetic::power2;
use crate::components::{DotMatrixInput, ExtendMode, Trigger};
use crate::file_format::{ComponentInstance, Facing};
use crate::netlist::TemplateNode;
use crate::plugin_abi::Bit;

verus! {

/// A place on the drawing.
pub type Point = (i128, i128);

/// The contents of a list of places.
pub open spec fn points(list: Seq<Point>) -> Seq<(int, int)> {
    Seq::new(list.len(), |i: int| (list[i].0 as int, list[i].1 as int))
}

/// The places of a component's pins relative to its own, as it faces east.
#[derive(Debug)]
pub struct Geometry {
    pub inputs: Vec<Point>,
    pub outputs: Vec<Point>,
}

impl Geometry {
    /// The geometry has these places.
    pub open spec fn has(&self, inputs: Seq<(int, int)>, outputs: Seq<(int, int)>) -> bool {
        points(self.inputs@) == inputs && points(self.outputs@) == outputs
    }

    /// The geometry is that of a node.
    pub open spec fn is_of(&self, node: TemplateNode) -> bool {
        self.has(input_offsets(node), output_offsets(node))
    }
}

/// The distance between an instance's input and output ports.
pub const SUBCIRCUIT_WIDTH: i32 = 6;

/// Places below each other.
pub open spec fn column(x: int, n: nat) -> Seq<(int, int)> {
    Seq::new(n, |i: int| (x, 2 * i))
}

/// Places below each other, around the middle.
pub open spec fn centered(n: nat) -> Seq<(int, int)> {
    Seq::new(n, |i: int| (0int, 2 * i - (n - 1)))
}

/// A place where it is wanted.
pub open spec fn optional(wanted: bool, at: (int, int)) -> Seq<(int, int)> {
    if wanted {
        seq![at]
    } else {
        Seq::empty()
    }
}

/// The places of a node's input pins. Those of an instance depend on its circuit.
pub open spec fn input_offsets(node: TemplateNode) -> Seq<(int, int)> {
    match node {
        TemplateNode::And { inputs, .. }
        | TemplateNode::Or { inputs, .. }
        | TemplateNode::Nand { inputs, .. }
        | TemplateNode::Nor { inputs, .. }
        | TemplateNode::Xor { inputs, .. }
        | TemplateNode::Xnor { inputs, .. } => centered(inputs as nat),
        TemplateNode::Not { .. } | TemplateNode::Buffer { .. } | TemplateNode::OutputPin { .. } =>
        seq![(0, 0)],
        TemplateNode::ControlledBuffer { .. } => seq![(0, 0), (1, -2)],
        TemplateNode::BitExtender { mode, .. } => seq![(0int, 0int)] + optional(
            mode == ExtendMode::Input,
            (0, -2),
        ),
        TemplateNode::HexDigit | TemplateNode::Transistor { .. } => seq![(0, 0), (0, -2)],
        TemplateNode::Register { .. } => seq![(0, 0), (1, 2), (2, 2), (3, 2)],
        TemplateNode::Mux { select_bits, has_enable, .. } => column(
            0,
            power2::pow2(select_bits as nat),
        ) + seq![(1int, -1int)] + optional(has_enable, (1, -2)),
        TemplateNode::Demux { has_enable, .. } => seq![(0int, -1int)] + optional(
            has_enable,
            (0, -2),
        ) + seq![(0int, 0int)],
        TemplateNode::Decoder { has_enable, .. } => seq![(0int, -1int)] + optional(
            has_enable,
            (0, -2),
        ),
        TemplateNode::PriorityEncoder { select_bits, .. } => column(
            0,
            power2::pow2(select_bits as nat) + 1,
        ),
        TemplateNode::Adder { .. } | TemplateNode::Subtractor { .. } => seq![
            (0, -1),
            (0, 1),
            (1, -2),
        ],
        TemplateNode::Comparator { .. } => seq![(0, -1), (0, 1)],
        TemplateNode::DotMatrix { rows, cols, input } => match input {
            DotMatrixInput::Column => column(0, cols as nat),
            DotMatrixInput::Row => column(0, rows as nat),
            DotMatrixInput::Select => column(0, 2),
        },
        TemplateNode::Tty { .. } => seq![(0, 0), (1, 0), (2, 0), (3, 0)],
        TemplateNode::Keyboard { .. } => seq![(0, 0), (1, 0), (2, 0)],
        TemplateNode::Constant { .. }
        | TemplateNode::InputPin { .. }
        | TemplateNode::PullResistor(_)
        | TemplateNode::Clock { .. }
        | TemplateNode::Subcircuit(_) => Seq::empty(),
    }
}

/// The places of a node's output pins. Those of an instance depend on its circuit.
pub open spec fn output_offsets(node: TemplateNode) -> Seq<(int, int)> {
    match node {
        TemplateNode::And { .. }
        | TemplateNode::Or { .. }
        | TemplateNode::Nand { .. }
        | TemplateNode::Nor { .. }
        | TemplateNode::Xor { .. }
        | TemplateNode::Xnor { .. }
        | TemplateNode::Mux { .. } => seq![(3, 0)],
        TemplateNode::Not { .. }
        | TemplateNode::Buffer { .. }
        | TemplateNode::ControlledBuffer { .. }
        | TemplateNode::BitExtender { .. }
        | TemplateNode::Transistor { .. } => seq![(2, 0)],
        TemplateNode::Constant { .. }
        | TemplateNode::InputPin { .. }
        | TemplateNode::PullResistor(_)
        | TemplateNode::Clock { .. } => seq![(0, 0)],
        TemplateNode::Register { .. } => seq![(4, 0)],
        TemplateNode::Demux { select_bits, .. } | TemplateNode::Decoder { select_bits, .. } =>
        column(3, power2::pow2(select_bits as nat)),
        TemplateNode::PriorityEncoder { .. } => column(3, 3),
        TemplateNode::Adder { .. } | TemplateNode::Subtractor { .. } => seq![(3, 0), (1, 2)],
        TemplateNode::Comparator { .. } => seq![(3, -1), (3, 0), (3, 1)],
        TemplateNode::Keyboard { .. } => seq![(3, 0), (4, 0)],
        TemplateNode::OutputPin { .. }
        | TemplateNode::HexDigit
        | TemplateNode::DotMatrix { .. }
        | TemplateNode::Tty { .. }
        | TemplateNode::Subcircuit(_) => Seq::empty(),
    }
}

/// A node's pins all have a place, one each.
pub proof fn every_pin_has_a_place(node: TemplateNode)
    requires
        !(node is Subcircuit),
    ensures
        input_offsets(node).len() == node.initial().input_count(),
        output_offsets(node).len() == node.initial().output_count(),
{
}

/// Relative places.
pub open spec fn all_offsets(node: TemplateNode) -> Seq<(int, int)> {
    input_offsets(node) + output_offsets(node)
}

/// No two pins of a node are at the same place.
pub proof fn pins_are_apart(node: TemplateNode, i: int, j: int)
    requires
        0 <= i < j < all_offsets(node).len(),
    ensures
        all_offsets(node)[i] != all_offsets(node)[j],
{
}

/// A relative place after turning it with the component.
pub open spec fn rotated(at: (int, int), facing: Facing) -> (int, int) {
    match facing {
        Facing::East => at,
        Facing::South => (-at.1, at.0),
        Facing::West => (-at.0, -at.1),
        Facing::North => (at.1, -at.0),
    }
}

/// Turning keeps different places different.
pub proof fn turning_keeps_places_apart(a: (int, int), b: (int, int), facing: Facing)
    ensures
        rotated(a, facing) == rotated(b, facing) <==> a == b,
{
}

/// South is a quarter turn from east, and west and north are two and three of them.
pub proof fn quarter_turns(at: (int, int))
    ensures
        rotated(at, Facing::East) == at,
        rotated(rotated(at, Facing::South), Facing::South) == rotated(at, Facing::West),
        rotated(rotated(at, Facing::West), Facing::South) == rotated(at, Facing::North),
        rotated(rotated(at, Facing::North), Facing::South) == at,
{
}

/// The place of a component's pin.
pub open spec fn placed(comp: ComponentInstance, at: (int, int)) -> (int, int) {
    let turned = rotated(at, comp.facing);
    (comp.x + turned.0, comp.y + turned.1)
}

/// The places of a component's pins.
pub open spec fn all_placed(comp: ComponentInstance, offsets: Seq<(int, int)>) -> Seq<(int, int)> {
    Seq::new(offsets.len(), |i: int| placed(comp, offsets[i]))
}

/// Far more than a relative place is away from its component.
pub(crate) const FAR: i128 = 0x1_0000_0000_0000_0000_0000;

/// Relative places are not far away.
pub(crate) open spec fn is_near(at: (int, int)) -> bool {
    -FAR <= at.0 <= FAR && -FAR <= at.1 <= FAR
}

pub(crate) proof fn offsets_are_near(node: TemplateNode)
    requires
        node.buildable(),
    ensures
        forall|i: int|
            0 <= i < input_offsets(node).len() ==> is_near(#[trigger] input_offsets(node)[i]),
        forall|i: int|
            0 <= i < output_offsets(node).len() ==> is_near(#[trigger] output_offsets(node)[i]),
{
    match node {
        TemplateNode::Mux { select_bits, .. }
        | TemplateNode::Demux { select_bits, .. }
        | TemplateNode::Decoder { select_bits, .. }
        | TemplateNode::PriorityEncoder { select_bits, .. } => {
            crate::components::plexers::lines_fit(select_bits as nat);
        },
        _ => {},
    }
}

fn rotate(offset: Point, facing: Facing) -> (r: Point)
    requires
        is_near((offset.0 as int, offset.1 as int)),
    ensures
        (r.0 as int, r.1 as int) == rotated((offset.0 as int, offset.1 as int), facing),
{
    let (dx, dy): Point = offset;
    match facing {
        Facing::East => (dx, dy),
        Facing::South => (-dy, dx),
        Facing::West => (-dx, -dy),
        Facing::North => (dy, -dx),
    }
}

/// Where a component has its pins.
pub(crate) fn place_all(comp: &ComponentInstance, offsets: &Vec<Point>) -> (r: Vec<Point>)
    requires
        forall|i: int| 0 <= i < offsets@.len() ==> is_near(#[trigger] points(offsets@)[i]),
    ensures
        points(r@) == all_placed(*comp, points(offsets@)),
{
    let mut r: Vec<Point> = Vec::new();
    for i in 0..offsets.len()
        invariant
            forall|i: int| 0 <= i < offsets@.len() ==> is_near(#[trigger] points(offsets@)[i]),
            r@.len() == i,
            forall|j: int|
                0 <= j < i ==> #[trigger] points(r@)[j] == placed(*comp, points(offsets@)[j]),
    {
        assert(is_near(points(offsets@)[i as int]));
        let ghost before = r@;
        let (rx, ry): Point = rotate(offsets[i], comp.facing);
        r.push((comp.x as i128 + rx, comp.y as i128 + ry));
        proof {
            assert forall|j: int| 0 <= j < i + 1 implies #[trigger] points(r@)[j] == placed(
                *comp,
                points(offsets@)[j],
            ) by {
                if j < i {
                    assert(points(before)[j] == points(r@)[j]);
                }
            }
        }
    }
    assert(points(r@) =~= all_placed(*comp, points(offsets@)));
    r
}

/// One input, and one output to the east.
pub fn unary_geometry() -> (r: Geometry)
    ensures
        r.has(seq![(0, 0)], seq![(2, 0)]),
{
    let r = Geometry { inputs: vec![(0, 0)], outputs: vec![(2, 0)] };
    assert(points(r.inputs@) =~= seq![(0, 0)]);
    assert(points(r.outputs@) =~= seq![(2, 0)]);
    r
}

/// One output and no input.
pub fn source_geometry() -> (r: Geometry)
    ensures
        r.has(Seq::empty(), seq![(0, 0)]),
{
    let r = Geometry { inputs: Vec::new(), outputs: vec![(0, 0)] };
    assert(points(r.inputs@) =~= Seq::empty());
    assert(points(r.outputs@) =~= seq![(0, 0)]);
    r
}

/// One input and no output.
pub fn sink_geometry() -> (r: Geometry)
    ensures
        r.has(seq![(0, 0)], Seq::empty()),
{
    let r = Geometry { inputs: vec![(0, 0)], outputs: Vec::new() };
    assert(points(r.inputs@) =~= seq![(0, 0)]);
    assert(points(r.outputs@) =~= Seq::empty());
    r
}

/// Places below each other.
pub(crate) fn column_points(x: i128, n: usize) -> (r: Vec<Point>)
    ensures
        points(r@) == column(x as int, n as nat),
{
    let mut r: Vec<Point> = Vec::new();
    for i in 0..n
        invariant
            r@.len() == i,
            forall|j: int| 0 <= j < i ==> #[trigger] r@[j] == (x, (2 * j) as i128),
    {
        r.push((x, 2 * i as i128));
    }
    assert(points(r@) =~= column(x as int, n as nat));
    r
}

/// Input ports below each other, and output ports below each other to the east of them.
pub fn subcircuit_geometry(input_ports: usize, output_ports: usize) -> (r: Geometry)
    ensures
        r.has(
            column(0, input_ports as nat),
            column(SUBCIRCUIT_WIDTH as int, output_ports as nat),
        ),
{
    Geometry {
        inputs: column_points(0, input_ports),
        outputs: column_points(SUBCIRCUIT_WIDTH as i128, output_ports),
    }
}

/// A component's pins turn with it: with the drawing's `y` growing downwards, east is as drawn,
/// and south is a quarter turn clockwise from it, west two and north three.
pub proof fn pins_turn_with_their_component(comp: ComponentInstance, dx: int, dy: int)
    ensures
        comp.facing == Facing::East ==> placed(comp, (dx, dy)) == (comp.x + dx, comp.y + dy),
        comp.facing == Facing::South ==> placed(comp, (dx, dy)) == (comp.x - dy, comp.y + dx),
        comp.facing == Facing::West ==> placed(comp, (dx, dy)) == (comp.x - dx, comp.y - dy),
        comp.facing == Facing::North ==> placed(comp, (dx, dy)) == (comp.x + dy, comp.y - dx),
{
}

/// Where the pins of the gates with one output are: inputs on the left around the middle, or from
/// the component's own place on, and the output on the right.
pub proof fn gates_have_their_pins(bits: u8, inputs: usize, i: int)
    requires
        0 <= i < inputs,
    ensures
        ({
            let many = seq![
                TemplateNode::And { bits, inputs },
                TemplateNode::Or { bits, inputs },
                TemplateNode::Nand { bits, inputs },
                TemplateNode::Nor { bits, inputs },
                TemplateNode::Xor { bits, inputs },
                TemplateNode::Xnor { bits, inputs },
            ];
            forall|k: int|
                0 <= k < 6 ==> input_offsets(#[trigger] many[k])[i] == (0int, 2 * i - inputs + 1)
                    && output_offsets(many[k]) == seq![(3int, 0int)]
        }),
        input_offsets((TemplateNode::Not { bits })) == seq![(0int, 0int)],
        output_offsets((TemplateNode::Not { bits })) == seq![(2int, 0int)],
        input_offsets((TemplateNode::Buffer { bits })) == seq![(0int, 0int)],
        output_offsets((TemplateNode::Buffer { bits })) == seq![(2int, 0int)],
        input_offsets((TemplateNode::ControlledBuffer { bits })) == seq![(0int, 0int), (1int, -2int)],
        output_offsets((TemplateNode::ControlledBuffer { bits })) == seq![(2int, 0int)],
{
}

/// Where sources, sinks and devices have their pins.
pub proof fn devices_have_their_pins(
    bits: u8,
    value: u32,
    level: Bit,
    high: u64,
    low: u64,
    in_bits: u8,
    out_bits: u8,
    trigger: Trigger,
    signed: bool,
    cols: u8,
    rows: u8,
    capacity: u16,
)
    ensures
        output_offsets((TemplateNode::Constant { bits, value })) == seq![(0int, 0int)],
        output_offsets((TemplateNode::InputPin { bits })) == seq![(0int, 0int)],
        output_offsets(TemplateNode::PullResistor(level)) == seq![(0int, 0int)],
        output_offsets((TemplateNode::Clock { high, low })) == seq![(0int, 0int)],
        input_offsets((TemplateNode::OutputPin { bits })) == seq![(0int, 0int)],
        input_offsets(TemplateNode::HexDigit) == seq![(0int, 0int), (0int, -2int)],
        input_offsets((TemplateNode::Transistor { bits, conducts_on: level })) == seq![
            (0int, 0int),
            (0int, -2int),
        ],
        output_offsets((TemplateNode::Transistor { bits, conducts_on: level })) == seq![(2int, 0int)],
        input_offsets(
            (TemplateNode::BitExtender { in_bits, out_bits, mode: ExtendMode::Zero }),
        ) == seq![(0int, 0int)],
        input_offsets(
            (TemplateNode::BitExtender { in_bits, out_bits, mode: ExtendMode::Input }),
        ) == seq![(0int, 0int), (0int, -2int)],
        output_offsets(
            (TemplateNode::BitExtender { in_bits, out_bits, mode: ExtendMode::Zero }),
        ) == seq![(2int, 0int)],
        input_offsets((TemplateNode::Register { bits, trigger })) == seq![
            (0int, 0int),
            (1int, 2int),
            (2int, 2int),
            (3int, 2int),
        ],
        output_offsets((TemplateNode::Register { bits, trigger })) == seq![(4int, 0int)],
        input_offsets((TemplateNode::Adder { bits })) == seq![
            (0int, -1int),
            (0int, 1int),
            (1int, -2int),
        ],
        output_offsets((TemplateNode::Adder { bits })) == seq![(3int, 0int), (1int, 2int)],
        input_offsets((TemplateNode::Subtractor { bits })) == seq![
            (0int, -1int),
            (0int, 1int),
            (1int, -2int),
        ],
        output_offsets((TemplateNode::Subtractor { bits })) == seq![(3int, 0int), (1int, 2int)],
        input_offsets((TemplateNode::Comparator { bits, signed })) == seq![(0int, -1int), (0int, 1int)],
        output_offsets((TemplateNode::Comparator { bits, signed })) == seq![
            (3int, -1int),
            (3int, 0int),
            (3int, 1int),
        ],
        input_offsets((TemplateNode::Tty { cols, rows, trigger })) == seq![
            (0int, 0int),
            (1int, 0int),
            (2int, 0int),
            (3int, 0int),
        ],
        input_offsets((TemplateNode::Keyboard { capacity, trigger })) == seq![
            (0int, 0int),
            (1int, 0int),
            (2int, 0int),
        ],
        output_offsets((TemplateNode::Keyboard { capacity, trigger })) == seq![
            (3int, 0int),
            (4int, 0int),
        ],
{
}

/// Where plexers and dot matrices have their pins: lines below each other, the select pin one
/// above the first of them, and the enable pin one further up.
pub proof fn plexers_have_their_pins(
    bits: u8,
    select_bits: u8,
    disabled_zero: bool,
    tristate: bool,
    cols: u8,
    rows: u8,
    i: int,
)
    requires
        0 <= i < power2::pow2(select_bits as nat),
    ensures
        ({
            let n = power2::pow2(select_bits as nat) as int;
            let mux = TemplateNode::Mux { bits, select_bits, has_enable: true, disabled_zero };
            let bare = TemplateNode::Mux { bits, select_bits, has_enable: false, disabled_zero };
            let demux = TemplateNode::Demux {
                bits,
                select_bits,
                has_enable: true,
                disabled_zero,
                tristate,
            };
            let decoder = TemplateNode::Decoder {
                select_bits,
                has_enable: true,
                disabled_zero,
                tristate,
            };
            let encoder = TemplateNode::PriorityEncoder { select_bits, disabled_zero };
            &&& input_offsets(mux).len() == n + 2 && input_offsets(bare).len() == n + 1
            &&& input_offsets(mux)[i] == (0int, 2 * i) && input_offsets(bare)[i] == (0int, 2 * i)
            &&& input_offsets(mux)[n] == (1int, -1int) && input_offsets(bare)[n] == (1int, -1int)
            &&& input_offsets(mux)[n + 1] == (1int, -2int)
            &&& output_offsets(mux) == seq![(3int, 0int)]
            &&& input_offsets(demux) == seq![(0int, -1int), (0int, -2int), (0int, 0int)]
            &&& output_offsets(demux).len() == n && output_offsets(demux)[i] == (3int, 2 * i)
            &&& input_offsets(decoder) == seq![(0int, -1int), (0int, -2int)]
            &&& output_offsets(decoder).len() == n && output_offsets(decoder)[i] == (3int, 2 * i)
            &&& input_offsets(encoder).len() == n + 1 && input_offsets(encoder)[i] == (0int, 2 * i)
            &&& input_offsets(encoder)[n] == (0int, 2 * n)
            &&& output_offsets(encoder) == seq![(3int, 0int), (3int, 2int), (3int, 4int)]
        }),
        0 <= i < cols ==> input_offsets(
            (TemplateNode::DotMatrix { rows, cols, input: DotMatrixInput::Column }),
        )[i] == (0int, 2 * i),
        0 <= i < rows ==> input_offsets(
            (TemplateNode::DotMatrix { rows, cols, input: DotMatrixInput::Row }),
        )[i] == (0int, 2 * i),
        input_offsets(
            (TemplateNode::DotMatrix { rows, cols, input: DotMatrixInput::Select }),
        ) == seq![(0int, 0int), (0int, 2int)],
{
}

} // verus!
