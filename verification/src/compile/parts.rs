//! What the components of a circuit are: gates, instances of other circuits, and splitters; and
//! where their pins are.
use vstd::prelude::*;
use crate::compile::arithmetic;
use crate::compile::attrs;
use crate::compile::error::{CompileError, CompileErrorView, Problem};
use crate::compile::geometry;
use crate::compile::geometry::{place_all, subcircuit_geometry, Geometry, Point};
use crate::compile::io;
use crate::compile::logic;
use crate::compile::memory;
use crate::compile::nets::Lane;
use crate::compile::plexers;
use crate::compile::ports;
use crate::compile::ports::{PortTable, PortWidths};
use crate::compile::splitter;
use crate::compile::splitter::{SplitterWiring, WiringView};
use crate::compile::wiring;
use crate::file_format::{Circuit, ComponentInstance};
use crate::name_map::NameMap;
use crate::netlist::{BitRef, TemplateNode};
use crate::text;

verus! {

/// What a component is.
pub enum Part {
    Leaf(TemplateNode),
    /// An instance of the circuit of this name.
    Instance(Seq<char>),
    Splitter(WiringView),
}

/// What the type of an instance starts with.
pub open spec fn instance_prefix() -> Seq<char> {
    "core:circuit/"@
}

/// The name of the circuit that a type refers to, if it is that of an instance.
pub open spec fn instance_name(type_: Seq<char>) -> Option<Seq<char>> {
    if instance_prefix().is_prefix_of(type_) {
        Some(type_.skip(instance_prefix().len() as int))
    } else {
        None
    }
}

/// The component is a splitter.
pub open spec fn is_splitter(comp: ComponentInstance) -> bool {
    instance_name(comp.type_@) is None && comp.type_@ == "core:Splitter"@
}

/// The node of a built-in component, `None` for an unknown type.
pub open spec fn leaf_of(comp: ComponentInstance) -> Option<Result<TemplateNode, Problem>> {
    if logic::node_of(comp) is Some {
        logic::node_of(comp)
    } else if wiring::node_of(comp) is Some {
        wiring::node_of(comp)
    } else if memory::node_of(comp) is Some {
        memory::node_of(comp)
    } else if plexers::node_of(comp) is Some {
        plexers::node_of(comp)
    } else if arithmetic::node_of(comp) is Some {
        arithmetic::node_of(comp)
    } else {
        io::node_of(comp)
    }
}

/// What a component is, or what is wrong with it.
pub open spec fn part_of(table: Map<Seq<char>, PortWidths>, comp: ComponentInstance) -> Result<
    Part,
    Problem,
> {
    match instance_name(comp.type_@) {
        Some(name) => if table.contains_key(name) {
            Ok(Part::Instance(name))
        } else {
            Err(Problem::UnknownSubcircuit(name))
        },
        None => if is_splitter(comp) {
            match splitter::wiring_of(comp) {
                Ok(wiring) => Ok(Part::Splitter(wiring)),
                Err(p) => Err(p),
            }
        } else {
            match leaf_of(comp) {
                Some(Ok(node)) => Ok(Part::Leaf(node)),
                Some(Err(p)) => Err(p),
                None => Err(Problem::UnknownComponentType(comp.type_@)),
            }
        },
    }
}

/// A component before this one has the same id.
pub open spec fn is_duplicate(comps: Seq<ComponentInstance>, i: int) -> bool {
    exists|j: int| 0 <= j < i && (#[trigger] comps[j]).id@ == comps[i].id@
}

/// What is wrong with a component, if anything.
pub open spec fn problem_at(
    table: Map<Seq<char>, PortWidths>,
    comps: Seq<ComponentInstance>,
    i: int,
) -> Option<Problem> {
    if is_duplicate(comps, i) {
        Some(Problem::DuplicateComponentId)
    } else {
        match part_of(table, comps[i]) {
            Ok(_) => None,
            Err(p) => Some(p),
        }
    }
}

/// The first thing that is wrong with the first `k` components of a circuit.
pub open spec fn circuit_error(
    table: Map<Seq<char>, PortWidths>,
    circuit: Circuit,
    k: nat,
) -> Option<CompileErrorView>
    decreases k,
{
    if k == 0 {
        None
    } else {
        match circuit_error(table, circuit, (k - 1) as nat) {
            Some(e) => Some(e),
            None => match problem_at(table, circuit.components@, k - 1) {
                Some(p) => Some(attrs::error_at(circuit, circuit.components@[k - 1], p)),
                None => None,
            },
        }
    }
}

/// How many of the first `k` components become nodes: all but the splitters.
pub open spec fn nodes_among(comps: Seq<ComponentInstance>, k: nat) -> nat
    decreases k,
{
    if k == 0 {
        0
    } else if is_splitter(comps[k - 1]) {
        nodes_among(comps, (k - 1) as nat)
    } else {
        nodes_among(comps, (k - 1) as nat) + 1
    }
}

/// The splitters among the first `k` components.
pub open spec fn splitters_among(comps: Seq<ComponentInstance>, k: nat) -> Seq<WiringView>
    decreases k,
{
    if k == 0 {
        Seq::empty()
    } else {
        let before = splitters_among(comps, (k - 1) as nat);
        if is_splitter(comps[k - 1]) {
            before.push(splitter::wiring_of(comps[k - 1])->Ok_0)
        } else {
            before
        }
    }
}

/// A pin of a node.
pub struct PinView {
    pub node: nat,
    pub pin: nat,
    pub at: (int, int),
    pub width: nat,
}

impl PinView {
    /// A bit of the pin.
    pub open spec fn bit(self, b: int) -> BitRef {
        (self.node as usize, self.pin as usize, b as u8)
    }

    /// Where a bit of the pin is.
    pub open spec fn lane(self, b: int) -> Lane {
        Lane { x: self.at.0, y: self.at.1, bit: b }
    }
}

/// A pin of a node.
#[derive(Debug)]
pub struct Pin {
    pub node: usize,
    pub pin: usize,
    pub at: Point,
    pub width: u8,
}

impl View for Pin {
    type V = PinView;

    open spec fn view(&self) -> PinView {
        PinView {
            node: self.node as nat,
            pin: self.pin as nat,
            at: (self.at.0 as int, self.at.1 as int),
            width: self.width as nat,
        }
    }
}

/// The contents of a list of pins.
pub open spec fn pins(list: Seq<Pin>) -> Seq<PinView> {
    Seq::new(list.len(), |i: int| list[i]@)
}

/// The input pins of a component that is node `node`.
pub open spec fn part_inputs(
    table: Map<Seq<char>, PortWidths>,
    comp: ComponentInstance,
    node: nat,
) -> Seq<PinView> {
    match part_of(table, comp) {
        Ok(Part::Leaf(leaf)) => {
            let at = geometry::input_offsets(leaf);
            Seq::new(
                at.len(),
                |p: int|
                    PinView {
                        node,
                        pin: p as nat,
                        at: geometry::placed(comp, at[p]),
                        width: leaf.initial().input_width(p) as nat,
                    },
            )
        },
        Ok(Part::Instance(name)) => {
            let widths = table[name].inputs;
            Seq::new(
                widths.len(),
                |p: int|
                    PinView {
                        node,
                        pin: p as nat,
                        at: geometry::placed(comp, (0, 2 * p)),
                        width: widths[p] as nat,
                    },
            )
        },
        _ => Seq::empty(),
    }
}

/// The output pins of a component that is node `node`. An instance's output ports are numbered
/// after its input ports.
pub open spec fn part_outputs(
    table: Map<Seq<char>, PortWidths>,
    comp: ComponentInstance,
    node: nat,
) -> Seq<PinView> {
    match part_of(table, comp) {
        Ok(Part::Leaf(leaf)) => {
            let at = geometry::output_offsets(leaf);
            Seq::new(
                at.len(),
                |p: int|
                    PinView {
                        node,
                        pin: p as nat,
                        at: geometry::placed(comp, at[p]),
                        width: leaf.initial().output_width(p) as nat,
                    },
            )
        },
        Ok(Part::Instance(name)) => {
            let first = table[name].inputs.len();
            let widths = table[name].outputs;
            Seq::new(
                widths.len(),
                |p: int|
                    PinView {
                        node,
                        pin: first + p as nat,
                        at: geometry::placed(comp, (geometry::SUBCIRCUIT_WIDTH as int, 2 * p)),
                        width: widths[p] as nat,
                    },
            )
        },
        _ => Seq::empty(),
    }
}

/// The input pins of the first `k` components.
pub open spec fn all_inputs(
    table: Map<Seq<char>, PortWidths>,
    comps: Seq<ComponentInstance>,
    k: nat,
) -> Seq<PinView>
    decreases k,
{
    if k == 0 {
        Seq::empty()
    } else {
        all_inputs(table, comps, (k - 1) as nat) + part_inputs(
            table,
            comps[k - 1],
            nodes_among(comps, (k - 1) as nat),
        )
    }
}

/// The output pins of the first `k` components.
pub open spec fn all_outputs(
    table: Map<Seq<char>, PortWidths>,
    comps: Seq<ComponentInstance>,
    k: nat,
) -> Seq<PinView>
    decreases k,
{
    if k == 0 {
        Seq::empty()
    } else {
        all_outputs(table, comps, (k - 1) as nat) + part_outputs(
            table,
            comps[k - 1],
            nodes_among(comps, (k - 1) as nat),
        )
    }
}

/// The node is the one that the component becomes.
pub open spec fn is_node_of(
    table: Map<Seq<char>, PortWidths>,
    comp: ComponentInstance,
    node: TemplateNode,
) -> bool {
    match part_of(table, comp) {
        Ok(Part::Leaf(leaf)) => node == leaf,
        Ok(Part::Instance(name)) => node matches TemplateNode::Subcircuit(sub) && sub@ == name,
        _ => false,
    }
}

/// The nodes are those that the first `k` components become, in their order.
pub open spec fn are_nodes_of(
    table: Map<Seq<char>, PortWidths>,
    comps: Seq<ComponentInstance>,
    k: nat,
    nodes: Seq<TemplateNode>,
) -> bool {
    &&& nodes.len() == nodes_among(comps, k)
    &&& forall|i: int|
        0 <= i < k && !is_splitter(#[trigger] comps[i]) ==> is_node_of(
            table,
            comps[i],
            nodes[nodes_among(comps, i as nat) as int],
        )
}

/// The nodes of the first `k` components by id.
pub open spec fn index_of(comps: Seq<ComponentInstance>, k: nat) -> Map<Seq<char>, usize>
    decreases k,
{
    if k == 0 {
        Map::empty()
    } else {
        let before = index_of(comps, (k - 1) as nat);
        if is_splitter(comps[k - 1]) {
            before
        } else {
            before.insert(comps[k - 1].id@, nodes_among(comps, (k - 1) as nat) as usize)
        }
    }
}

pub(crate) proof fn nodes_among_grows(comps: Seq<ComponentInstance>, j: nat, k: nat)
    requires
        j <= k,
    ensures
        nodes_among(comps, j) <= nodes_among(comps, k) <= nodes_among(comps, j) + (k - j),
    decreases k,
{
    if j < k {
        nodes_among_grows(comps, j, (k - 1) as nat);
    }
}

/// The error of a circuit is that of its first component that has one.
pub(crate) proof fn error_stays(
    table: Map<Seq<char>, PortWidths>,
    circuit: Circuit,
    j: nat,
    k: nat,
)
    requires
        j <= k,
        circuit_error(table, circuit, j) is Some,
    ensures
        circuit_error(table, circuit, k) == circuit_error(table, circuit, j),
    decreases k,
{
    if j < k {
        error_stays(table, circuit, j, (k - 1) as nat);
    }
}

/// In a circuit without error every component is something, and has its own id.
pub proof fn no_error_means_parts(
    table: Map<Seq<char>, PortWidths>,
    circuit: Circuit,
    k: nat,
    i: int,
)
    requires
        circuit_error(table, circuit, k) is None,
        0 <= i < k,
    ensures
        part_of(table, circuit.components@[i]) is Ok,
        !is_duplicate(circuit.components@, i),
    decreases k,
{
    if i < k - 1 {
        no_error_means_parts(table, circuit, (k - 1) as nat, i);
    }
}

fn leaf_node(circuit: &Circuit, comp: &ComponentInstance) -> (r: Option<
    Result<(TemplateNode, Geometry), CompileError>,
>)
    ensures
        attrs::compiled_as(r, leaf_of(*comp), *circuit, *comp),
{
    match logic::compile(circuit, comp) {
        Some(r) => {
            return Some(r);
        },
        None => {},
    }
    match wiring::compile(circuit, comp) {
        Some(r) => {
            return Some(r);
        },
        None => {},
    }
    match memory::compile(circuit, comp) {
        Some(r) => {
            return Some(r);
        },
        None => {},
    }
    match plexers::compile(circuit, comp) {
        Some(r) => {
            return Some(r);
        },
        None => {},
    }
    match arithmetic::compile(circuit, comp) {
        Some(r) => {
            return Some(r);
        },
        None => {},
    }
    io::compile(circuit, comp)
}

fn referenced_circuit(type_: &str) -> (r: Option<String>)
    ensures
        match (r, instance_name(type_@)) {
            (Some(a), Some(b)) => a@ == b,
            (None, None) => true,
            _ => false,
        },
{
    let chars: Vec<char> = text::chars_of(type_);
    let prefix: Vec<char> = text::chars_of("core:circuit/");
    if chars.len() < prefix.len() {
        return None;
    }
    for i in 0..prefix.len()
        invariant
            chars@ == type_@,
            prefix@ == instance_prefix(),
            prefix@.len() <= chars@.len(),
            forall|j: int| 0 <= j < i ==> chars@[j] == prefix@[j],
    {
        if chars[i] != prefix[i] {
            return None;
        }
    }
    assert(instance_prefix().is_prefix_of(type_@)) by {
        assert(type_@.subrange(0, prefix@.len() as int) =~= prefix@);
    }
    let name: String = text::string_of(&chars, prefix.len(), chars.len());
    assert(name@ =~= type_@.skip(prefix@.len() as int));
    Some(name)
}

/// A width within 1 to 32.
pub open spec fn is_width(bits: u8) -> bool {
    1 <= bits <= 32
}

/// A node with attributes within their bounds.
pub open spec fn is_modest(node: TemplateNode) -> bool {
    match node {
        TemplateNode::And { bits, inputs }
        | TemplateNode::Or { bits, inputs }
        | TemplateNode::Nand { bits, inputs }
        | TemplateNode::Nor { bits, inputs }
        | TemplateNode::Xor { bits, inputs }
        | TemplateNode::Xnor { bits, inputs } => is_width(bits) && 2 <= inputs <= 32,
        TemplateNode::Not { bits }
        | TemplateNode::Buffer { bits }
        | TemplateNode::ControlledBuffer { bits }
        | TemplateNode::InputPin { bits }
        | TemplateNode::OutputPin { bits }
        | TemplateNode::Adder { bits }
        | TemplateNode::Subtractor { bits } => is_width(bits),
        TemplateNode::Constant { bits, .. }
        | TemplateNode::Transistor { bits, .. }
        | TemplateNode::Register { bits, .. }
        | TemplateNode::Comparator { bits, .. } => is_width(bits),
        TemplateNode::BitExtender { in_bits, out_bits, .. } => is_width(in_bits) && is_width(
            out_bits,
        ),
        TemplateNode::Clock { high, low } => 1 <= high <= i64::MAX && 1 <= low <= i64::MAX,
        TemplateNode::Mux { bits, select_bits, .. }
        | TemplateNode::Demux { bits, select_bits, .. } => is_width(bits) && 1 <= select_bits <= 5,
        TemplateNode::Decoder { select_bits, .. }
        | TemplateNode::PriorityEncoder { select_bits, .. } => 1 <= select_bits <= 5,
        TemplateNode::DotMatrix { rows, cols, .. } => is_width(rows) && is_width(cols),
        TemplateNode::Tty { cols, rows, .. } => 1 <= cols <= 120 && 1 <= rows <= 48,
        TemplateNode::Keyboard { capacity, .. } => 1 <= capacity <= 256,
        TemplateNode::PullResistor(_) | TemplateNode::HexDigit => true,
        TemplateNode::Subcircuit(_) => false,
    }
}

/// Built-in components have attributes within their bounds.
pub proof fn leaves_are_modest(comp: ComponentInstance)
    requires
        leaf_of(comp) matches Some(Ok(_)),
    ensures
        is_modest(leaf_of(comp)->0->Ok_0),
{
}

/// A node that can be built and simulated and takes actions, and whose pins have 1 to 32 bits.
pub open spec fn is_sound(node: TemplateNode) -> bool {
    &&& !(node is Subcircuit)
    &&& node.buildable()
    &&& node.initial().runnable()
    &&& node.initial().tolerates(u64::MAX as nat)
    &&& forall|p: int|
        0 <= p < node.initial().input_count() ==> is_width(
            #[trigger] node.initial().input_width(p),
        )
    &&& forall|p: int|
        0 <= p < node.initial().output_count() ==> is_width(
            #[trigger] node.initial().output_width(p),
        )
}

proof fn modest_is_sound(node: TemplateNode)
    requires
        is_modest(node),
    ensures
        is_sound(node),
{
}

/// Built-in components become gates that can be built and simulated and take actions, and whose
/// pins have 1 to 32 bits.
pub proof fn leaves_are_sound(comp: ComponentInstance)
    requires
        leaf_of(comp) matches Some(Ok(_)),
    ensures
        is_sound(leaf_of(comp)->0->Ok_0),
{
    leaves_are_modest(comp);
    modest_is_sound(leaf_of(comp)->0->Ok_0);
}

/// What the components of a circuit became.
pub(crate) struct Parts {
    pub(crate) nodes: Vec<TemplateNode>,
    pub(crate) inputs: Vec<Pin>,
    pub(crate) outputs: Vec<Pin>,
    pub(crate) splitters: Vec<SplitterWiring>,
    /// For each component how many nodes the ones before it became.
    pub(crate) numbers: Vec<usize>,
    pub(crate) index: NameMap<usize>,
}

/// The contents of a list of splitters.
pub(crate) open spec fn wirings(list: Seq<SplitterWiring>) -> Seq<WiringView> {
    Seq::new(list.len(), |i: int| list[i]@)
}

impl Parts {
    /// The parts are those of the first `k` components.
    pub(crate) open spec fn are_of(
        &self,
        table: Map<Seq<char>, PortWidths>,
        comps: Seq<ComponentInstance>,
        k: nat,
    ) -> bool {
        &&& are_nodes_of(table, comps, k, self.nodes@)
        &&& pins(self.inputs@) == all_inputs(table, comps, k)
        &&& pins(self.outputs@) == all_outputs(table, comps, k)
        &&& wirings(self.splitters@) == splitters_among(comps, k)
        &&& forall|i: int|
            0 <= i < self.splitters@.len() ==> (#[trigger] self.splitters@[i]).wf()
        &&& self.numbers@.len() == k
        &&& forall|i: int|
            0 <= i < k ==> #[trigger] self.numbers@[i] == nodes_among(comps, i as nat)
        &&& self.index@ == index_of(comps, k)
    }
}

/// Adds the input pins of a leaf.
fn push_leaf_inputs(
    list: &mut Vec<Pin>,
    leaf: &TemplateNode,
    comp: &ComponentInstance,
    places: &Vec<Point>,
    node: usize,
    Ghost(table): Ghost<Map<Seq<char>, PortWidths>>,
)
    requires
        part_of(table, *comp) == Ok::<Part, Problem>(Part::Leaf(*leaf)),
        is_sound(*leaf),
        geometry::points(places@) == geometry::all_placed(*comp, geometry::input_offsets(*leaf)),
    ensures
        pins(final(list)@) == pins(old(list)@) + part_inputs(table, *comp, node as nat),
{
    let ghost before = list@;
    let ghost want = part_inputs(table, *comp, node as nat);
    proof {
        geometry::every_pin_has_a_place(*leaf);
        assert(geometry::points(places@).len() == places@.len());
    }
    for p in 0..places.len()
        invariant
            is_sound(*leaf),
            want == part_inputs(table, *comp, node as nat),
            part_of(table, *comp) == Ok::<Part, Problem>(Part::Leaf(*leaf)),
            geometry::points(places@) == geometry::all_placed(
                *comp,
                geometry::input_offsets(*leaf),
            ),
            places@.len() == leaf.initial().input_count(),
            want.len() == places@.len(),
            pins(list@) == pins(before) + want.take(p as int),
    {
        let ghost now = list@;
        assert(geometry::points(places@)[p as int] == geometry::placed(
            *comp,
            geometry::input_offsets(*leaf)[p as int],
        ));
        list.push(Pin { node, pin: p, at: places[p], width: leaf.input_width(p) });
        assert(list@[now.len() as int]@ == want[p as int]);
        assert(pins(list@) =~= pins(now).push(want[p as int]));
        assert(pins(list@) =~= pins(before) + want.take(p + 1));
    }
    assert(want.take(want.len() as int) =~= want);
    assert(pins(list@) =~= pins(before) + want);
}

/// Adds the output pins of a leaf.
fn push_leaf_outputs(
    list: &mut Vec<Pin>,
    leaf: &TemplateNode,
    comp: &ComponentInstance,
    places: &Vec<Point>,
    node: usize,
    Ghost(table): Ghost<Map<Seq<char>, PortWidths>>,
)
    requires
        part_of(table, *comp) == Ok::<Part, Problem>(Part::Leaf(*leaf)),
        is_sound(*leaf),
        geometry::points(places@) == geometry::all_placed(*comp, geometry::output_offsets(*leaf)),
    ensures
        pins(final(list)@) == pins(old(list)@) + part_outputs(table, *comp, node as nat),
{
    let ghost before = list@;
    let ghost want = part_outputs(table, *comp, node as nat);
    proof {
        geometry::every_pin_has_a_place(*leaf);
        assert(geometry::points(places@).len() == places@.len());
    }
    for p in 0..places.len()
        invariant
            is_sound(*leaf),
            want == part_outputs(table, *comp, node as nat),
            part_of(table, *comp) == Ok::<Part, Problem>(Part::Leaf(*leaf)),
            geometry::points(places@) == geometry::all_placed(
                *comp,
                geometry::output_offsets(*leaf),
            ),
            places@.len() == leaf.initial().output_count(),
            want.len() == places@.len(),
            pins(list@) == pins(before) + want.take(p as int),
    {
        let ghost now = list@;
        assert(geometry::points(places@)[p as int] == geometry::placed(
            *comp,
            geometry::output_offsets(*leaf)[p as int],
        ));
        list.push(Pin { node, pin: p, at: places[p], width: leaf.output_width(p) });
        assert(list@[now.len() as int]@ == want[p as int]);
        assert(pins(list@) =~= pins(now).push(want[p as int]));
        assert(pins(list@) =~= pins(before) + want.take(p + 1));
    }
    assert(want.take(want.len() as int) =~= want);
    assert(pins(list@) =~= pins(before) + want);
}

/// Adds the ports of an instance, numbered from `first` on.
fn push_ports(
    list: &mut Vec<Pin>,
    widths: &Vec<u8>,
    places: &Vec<Point>,
    node: usize,
    first: usize,
    Ghost(want): Ghost<Seq<PinView>>,
)
    requires
        places@.len() == widths@.len(),
        first + widths@.len() <= usize::MAX,
        want.len() == widths@.len(),
        forall|p: int|
            0 <= p < want.len() ==> #[trigger] want[p] == (PinView {
                node: node as nat,
                pin: (first + p) as nat,
                at: geometry::points(places@)[p],
                width: widths@[p] as nat,
            }),
    ensures
        pins(final(list)@) == pins(old(list)@) + want,
{
    let ghost before = list@;
    for p in 0..places.len()
        invariant
            places@.len() == widths@.len(),
            first + widths@.len() <= usize::MAX,
            want.len() == widths@.len(),
            forall|p: int|
                0 <= p < want.len() ==> #[trigger] want[p] == (PinView {
                    node: node as nat,
                    pin: (first + p) as nat,
                    at: geometry::points(places@)[p],
                    width: widths@[p] as nat,
                }),
            pins(list@) == pins(before) + want.take(p as int),
    {
        let ghost now = list@;
        list.push(Pin { node, pin: first + p, at: places[p], width: widths[p] });
        assert(list@[now.len() as int]@ == want[p as int]);
        assert(pins(list@) =~= pins(now).push(want[p as int]));
        assert(pins(list@) =~= pins(before) + want.take(p + 1));
    }
    assert(want.take(want.len() as int) =~= want);
    assert(pins(list@) =~= pins(before) + want);
}

/// Adding one component's part gives the parts of one component more.
proof fn one_more_part(
    table: Map<Seq<char>, PortWidths>,
    comps: Seq<ComponentInstance>,
    k: nat,
    before: Parts,
    after: Parts,
)
    requires
        k < comps.len(),
        before.are_of(table, comps, k),
        after.numbers@ == before.numbers@.push(nodes_among(comps, k) as usize),
        nodes_among(comps, k) <= usize::MAX,
        pins(after.inputs@) == pins(before.inputs@) + part_inputs(
            table,
            comps[k as int],
            nodes_among(comps, k),
        ),
        pins(after.outputs@) == pins(before.outputs@) + part_outputs(
            table,
            comps[k as int],
            nodes_among(comps, k),
        ),
        is_splitter(comps[k as int]) ==> after.nodes@ == before.nodes@ && after.index@
            == before.index@ && after.splitters@.len() == before.splitters@.len() + 1
            && after.splitters@.drop_last() == before.splitters@ && after.splitters@.last().wf()
            && after.splitters@.last()@ == splitter::wiring_of(comps[k as int])->Ok_0,
        !is_splitter(comps[k as int]) ==> after.nodes@.len() == before.nodes@.len() + 1
            && after.nodes@.drop_last() == before.nodes@ && is_node_of(
            table,
            comps[k as int],
            after.nodes@.last(),
        ) && after.index@ == before.index@.insert(
            comps[k as int].id@,
            nodes_among(comps, k) as usize,
        ) && after.splitters@ == before.splitters@,
    ensures
        after.are_of(table, comps, k + 1),
{
    assert forall|i: int| 0 <= i < k + 1 && !is_splitter(#[trigger] comps[i]) implies is_node_of(
        table,
        comps[i],
        after.nodes@[nodes_among(comps, i as nat) as int],
    ) by {
        if i < k {
            nodes_among_grows(comps, (i + 1) as nat, k);
            let n = nodes_among(comps, i as nat) as int;
            assert(is_node_of(table, comps[i], before.nodes@[n]));
            assert(after.nodes@[n] == before.nodes@[n]);
        }
    }
    assert forall|i: int| 0 <= i < after.splitters@.len() implies (
    #[trigger] after.splitters@[i]).wf() by {
        if i < before.splitters@.len() {
            assert(after.splitters@[i] == before.splitters@[i]);
        }
    }
    if is_splitter(comps[k as int]) {
        assert(wirings(after.splitters@) =~= wirings(before.splitters@).push(
            after.splitters@.last()@,
        ));
    }
    assert forall|i: int| 0 <= i < k + 1 implies #[trigger] after.numbers@[i] == nodes_among(
        comps,
        i as nat,
    ) by {
        if i < k {
            assert(after.numbers@[i] == before.numbers@[i]);
        }
    }
}

impl Parts {
    fn new() -> (r: Self)
        ensures
            forall|table: Map<Seq<char>, PortWidths>, comps: Seq<ComponentInstance>| #[trigger]
                r.are_of(table, comps, 0),
    {
        let r = Parts {
            nodes: Vec::new(),
            inputs: Vec::new(),
            outputs: Vec::new(),
            splitters: Vec::new(),
            numbers: Vec::new(),
            index: NameMap::new(),
        };
        assert(pins(r.inputs@) =~= Seq::<PinView>::empty());
        assert(pins(r.outputs@) =~= Seq::<PinView>::empty());
        assert(wirings(r.splitters@) =~= Seq::<WiringView>::empty());
        r
    }

    /// Adds an instance of another circuit.
    fn add_instance(&mut self, circuit: &Circuit, k: usize, name: String, table: &PortTable) -> (r:
        Result<(), CompileError>)
        requires
            k < circuit.components@.len(),
            old(self).are_of(ports::table_view(table@), circuit.components@, k as nat),
            ports::is_sane(ports::table_view(table@)),
            instance_name(circuit.components@[k as int].type_@) == Some(name@),
        ensures
            match r {
                Ok(()) => part_of(ports::table_view(table@), circuit.components@[k as int]) is Ok
                    && final(self).are_of(
                    ports::table_view(table@),
                    circuit.components@,
                    (k + 1) as nat,
                ),
                Err(e) => part_of(ports::table_view(table@), circuit.components@[k as int])
                    matches Err(p) && e@ == attrs::error_at(
                    *circuit,
                    circuit.components@[k as int],
                    p,
                ),
            },
    {
        let ghost before = *self;
        let ghost t = ports::table_view(table@);
        let ghost comps = circuit.components@;
        let comp: &ComponentInstance = &circuit.components[k];
        match table.get(name.as_str()) {
            None => {
                Err(
                    CompileError::UnknownSubcircuit {
                        circuit: circuit.name.clone(),
                        id: comp.id.clone(),
                        referenced: name,
                    },
                )
            },
            Some(widths) => {
                let inputs: &Vec<u8> = &widths.0;
                let outputs: &Vec<u8> = &widths.1;
                let node: usize = self.nodes.len();
                let n_in: usize = inputs.len();
                let n_out: usize = outputs.len();
                assert(t.contains_key(name@));
                assert(t[name@].inputs == inputs@ && t[name@].outputs == outputs@);
                let geom: Geometry = subcircuit_geometry(n_in, n_out);
                assert(geometry::points(geom.inputs@).len() == geom.inputs@.len());
                assert(geometry::points(geom.outputs@).len() == geom.outputs@.len());
                let places_in: Vec<Point> = place_all(comp, &geom.inputs);
                let places_out: Vec<Point> = place_all(comp, &geom.outputs);
                assert(geometry::points(places_in@).len() == places_in@.len());
                assert(geometry::points(places_out@).len() == places_out@.len());
                let ghost ins = part_inputs(t, *comp, node as nat);
                let ghost outs = part_outputs(t, *comp, node as nat);
                push_ports(&mut self.inputs, inputs, &places_in, node, 0, Ghost(ins));
                push_ports(&mut self.outputs, outputs, &places_out, node, n_in, Ghost(outs));
                self.index.insert(comp.id.clone(), node);
                self.nodes.push(TemplateNode::Subcircuit(name));
                self.numbers.push(node);
                proof {
                    assert(self.nodes@.drop_last() =~= before.nodes@);
                    one_more_part(t, comps, k as nat, before, *self);
                }
                Ok(())
            },
        }
    }

    /// Adds a built-in component.
    fn add_leaf(
        &mut self,
        circuit: &Circuit,
        k: usize,
        leaf: TemplateNode,
        geom: Geometry,
        Ghost(t): Ghost<Map<Seq<char>, PortWidths>>,
    )
        requires
            k < circuit.components@.len(),
            old(self).are_of(t, circuit.components@, k as nat),
            part_of(t, circuit.components@[k as int]) == Ok::<Part, Problem>(Part::Leaf(leaf)),
            !is_splitter(circuit.components@[k as int]),
            is_sound(leaf),
            geom.is_of(leaf),
        ensures
            final(self).are_of(t, circuit.components@, (k + 1) as nat),
    {
        let ghost before = *self;
        let ghost comps = circuit.components@;
        let comp: &ComponentInstance = &circuit.components[k];
        let node: usize = self.nodes.len();
        proof {
            geometry::offsets_are_near(leaf);
            assert(geometry::points(geom.inputs@).len() == geom.inputs@.len());
            assert(geometry::points(geom.outputs@).len() == geom.outputs@.len());
        }
        let places_in: Vec<Point> = place_all(comp, &geom.inputs);
        let places_out: Vec<Point> = place_all(comp, &geom.outputs);
        push_leaf_inputs(&mut self.inputs, &leaf, comp, &places_in, node, Ghost(t));
        push_leaf_outputs(&mut self.outputs, &leaf, comp, &places_out, node, Ghost(t));
        self.index.insert(comp.id.clone(), node);
        self.nodes.push(leaf);
        self.numbers.push(node);
        proof {
            assert(self.nodes@.drop_last() =~= before.nodes@);
            one_more_part(t, comps, k as nat, before, *self);
        }
    }

    /// Adds a component.
    fn add(&mut self, circuit: &Circuit, k: usize, table: &PortTable) -> (r: Result<
        (),
        CompileError,
    >)
        requires
            k < circuit.components@.len(),
            old(self).are_of(ports::table_view(table@), circuit.components@, k as nat),
            ports::is_sane(ports::table_view(table@)),
        ensures
            match r {
                Ok(()) => part_of(ports::table_view(table@), circuit.components@[k as int]) is Ok
                    && final(self).are_of(
                    ports::table_view(table@),
                    circuit.components@,
                    (k + 1) as nat,
                ),
                Err(e) => part_of(ports::table_view(table@), circuit.components@[k as int])
                    matches Err(p) && e@ == attrs::error_at(
                    *circuit,
                    circuit.components@[k as int],
                    p,
                ),
            },
    {
        let ghost before = *self;
        let ghost t = ports::table_view(table@);
        let ghost comps = circuit.components@;
        let comp: &ComponentInstance = &circuit.components[k];
        match referenced_circuit(comp.type_.as_str()) {
            Some(name) => {
                return self.add_instance(circuit, k, name, table);
            },
            None => {},
        }
        if text::same(comp.type_.as_str(), "core:Splitter") {
            match splitter::compile(circuit, comp) {
                Err(e) => Err(e),
                Ok(wiring) => {
                    let node: usize = self.nodes.len();
                    self.splitters.push(wiring);
                    self.numbers.push(node);
                    proof {
                        assert(self.splitters@.drop_last() =~= before.splitters@);
                        assert(pins(self.inputs@) =~= pins(before.inputs@) + part_inputs(
                            t,
                            *comp,
                            node as nat,
                        ));
                        assert(pins(self.outputs@) =~= pins(before.outputs@) + part_outputs(
                            t,
                            *comp,
                            node as nat,
                        ));
                        one_more_part(t, comps, k as nat, before, *self);
                    }
                    Ok(())
                },
            }
        } else {
            match leaf_node(circuit, comp) {
                Some(Ok((leaf, geom))) => {
                    proof {
                        leaves_are_sound(*comp);
                    }
                    self.add_leaf(circuit, k, leaf, geom, Ghost(t));
                    Ok(())
                },
                Some(Err(e)) => Err(e),
                None => Err(
                    CompileError::UnknownComponentType {
                        circuit: circuit.name.clone(),
                        id: comp.id.clone(),
                        type_: comp.type_.clone(),
                    },
                ),
            }
        }
    }
}

/// Finds out what the components of a circuit are.
pub(crate) fn collect(circuit: &Circuit, table: &PortTable) -> (r: Result<Parts, CompileError>)
    requires
        ports::is_sane(ports::table_view(table@)),
    ensures
        match (
            r,
            circuit_error(ports::table_view(table@), *circuit, circuit.components@.len()),
        ) {
            (Ok(parts), None) => parts.are_of(
                ports::table_view(table@),
                circuit.components@,
                circuit.components@.len(),
            ),
            (Err(e), Some(want)) => e@ == want,
            _ => false,
        },
{
    let ghost t = ports::table_view(table@);
    let ghost comps = circuit.components@;
    let mut parts: Parts = Parts::new();
    let mut seen: NameMap<usize> = NameMap::new();
    assert(parts.are_of(t, comps, 0));
    for k in 0..circuit.components.len()
        invariant
            t == ports::table_view(table@),
            comps == circuit.components@,
            ports::is_sane(t),
            circuit_error(t, *circuit, k as nat) is None,
            parts.are_of(t, comps, k as nat),
            forall|id: Seq<char>| #[trigger]
                seen@.contains_key(id) <==> exists|j: int|
                    0 <= j < k && (#[trigger] comps[j]).id@ == id,
    {
        let comp: &ComponentInstance = &circuit.components[k];
        if seen.contains_key(comp.id.as_str()) {
            proof {
                assert(is_duplicate(comps, k as int));
                error_stays(t, *circuit, (k + 1) as nat, comps.len());
            }
            return Err(
                CompileError::DuplicateComponentId {
                    circuit: circuit.name.clone(),
                    id: comp.id.clone(),
                },
            );
        }
        assert(!is_duplicate(comps, k as int));
        let ghost ids = seen@;
        seen.insert(comp.id.clone(), k);
        proof {
            assert forall|id: Seq<char>| #[trigger]
                seen@.contains_key(id) <==> exists|j: int|
                    0 <= j < k + 1 && (#[trigger] comps[j]).id@ == id by {
                if id == comp.id@ {
                    assert(comps[k as int].id@ == id);
                } else {
                    assert(seen@.contains_key(id) == ids.contains_key(id));
                }
            }
        }
        match parts.add(circuit, k, table) {
            Ok(()) => {},
            Err(e) => {
                proof {
                    error_stays(t, *circuit, (k + 1) as nat, comps.len());
                }
                return Err(e);
            },
        }
    }
    Ok(parts)
}

} // verus!
