//! What a drawing means: what its wires and splitters join, where its components have their
//! pins, and which node each of them is.
use vstd::prelude::*;
use super::circuit;
use super::error::{CompileErrorView, Problem};
use super::geometry;
use super::meaning;
use super::nets;
use super::nets::Lane;
use super::parts;
use super::parts::{Part, PinView};
use super::ports;
use super::ports::PortWidths;
use super::soundness;
use super::splitter;
use super::splitter::WiringView;
use crate::compile;
use crate::file_format::{AttrValue, Circuit, ComponentInstance};
use crate::text;

verus! {

/// Bit `b` at a place of the drawing.
pub open spec fn lane_at(at: (int, int), b: int) -> Lane {
    Lane { x: at.0, y: at.1, bit: b }
}

/// A wire joins every bit of one of its ends to the same bit of the other.
pub proof fn wires_join_their_ends(circuit: Circuit, w: int, b: int)
    requires
        0 <= w < circuit.wires@.len(),
        0 <= b < 32,
    ensures
        ({
            let wire = circuit.wires@[w];
            nets::joined(
                circuit::links_of(circuit),
                lane_at((wire.from[0] as int, wire.from[1] as int), b),
                lane_at((wire.to[0] as int, wire.to[1] as int), b),
            )
        }),
{
    let wire = circuit.wires@[w];
    let links = circuit::links_of(circuit);
    let l = circuit::wire_link(circuit.wires@[w], b);
    assert(circuit::is_wire_link(circuit.wires@, l));
    assert(links.contains(l));
    nets::links_are_joined(links, l.0, l.1);
}

/// How many of the first `k` bits of a splitter go to an end.
pub open spec fn earlier(ends: Seq<u8>, end: u8, k: nat) -> nat
    decreases k,
{
    if k == 0 {
        0
    } else if ends[k - 1] == end {
        earlier(ends, end, (k - 1) as nat) + 1
    } else {
        earlier(ends, end, (k - 1) as nat)
    }
}

proof fn earlier_is_counted(ends: Seq<u8>, end: u8, k: nat)
    ensures
        splitter::bits_to(ends, end, k) == earlier(ends, end, k),
    decreases k,
{
    if k > 0 {
        earlier_is_counted(ends, end, (k - 1) as nat);
    }
}

proof fn splitters_are_among(comps: Seq<ComponentInstance>, k: nat, i: int)
    requires
        0 <= i < k <= comps.len(),
        parts::is_splitter(comps[i]),
    ensures
        parts::splitters_among(comps, k).contains(splitter::wiring_of(comps[i])->Ok_0),
    decreases k,
{
    let w = splitter::wiring_of(comps[i])->Ok_0;
    let before = parts::splitters_among(comps, (k - 1) as nat);
    if i < k - 1 {
        splitters_are_among(comps, (k - 1) as nat, i);
        let j = choose|j: int| 0 <= j < before.len() && before[j] == w;
        assert(parts::splitters_among(comps, k)[j] == w);
    } else {
        assert(parts::splitters_among(comps, k)[before.len() as int] == w);
    }
}

proof fn among_are_splitters(comps: Seq<ComponentInstance>, k: nat, j: int) -> (i: int)
    requires
        k <= comps.len(),
        0 <= j < parts::splitters_among(comps, k).len(),
    ensures
        0 <= i < k,
        parts::is_splitter(comps[i]),
        parts::splitters_among(comps, k)[j] == splitter::wiring_of(comps[i])->Ok_0,
    decreases k,
{
    let before = parts::splitters_among(comps, (k - 1) as nat);
    if j < before.len() {
        among_are_splitters(comps, (k - 1) as nat, j)
    } else {
        k - 1
    }
}

/// A bit of a splitter's combined end, and the bit that it is of the end that it goes to: the one
/// after those that go there before it.
pub open spec fn split(w: WiringView, b: int) -> (Lane, Lane) {
    (
        lane_at(w.combined, b),
        lane_at(w.fanout[w.ends[b] - 1], earlier(w.ends, w.ends[b], b as nat) as int),
    )
}

proof fn split_is_linked(w: WiringView, b: int)
    requires
        0 <= b < w.ends.len(),
        w.ends[b] > 0,
    ensures
        circuit::splitter_link(w, b) == split(w, b),
{
    earlier_is_counted(w.ends, w.ends[b], b as nat);
}

/// A splitter joins every bit of its combined end that goes to a fanout end to the bit that it is
/// there: the one after those that go there before it.
pub proof fn splitters_join_their_ends(circuit: Circuit, i: int, b: int)
    requires
        0 <= i < circuit.components@.len(),
        parts::is_splitter(circuit.components@[i]),
        splitter::wiring_of(circuit.components@[i]) is Ok,
        0 <= b < splitter::wiring_of(circuit.components@[i])->Ok_0.ends.len(),
        splitter::wiring_of(circuit.components@[i])->Ok_0.ends[b] > 0,
    ensures
        ({
            let w = splitter::wiring_of(circuit.components@[i])->Ok_0;
            nets::joined(circuit::links_of(circuit), split(w, b).0, split(w, b).1)
        }),
{
    let comps = circuit.components@;
    let w = splitter::wiring_of(comps[i])->Ok_0;
    let links = circuit::links_of(circuit);
    let list = parts::splitters_among(comps, comps.len());
    splitters_are_among(comps, comps.len(), i);
    let s = choose|s: int| 0 <= s < list.len() && list[s] == w;
    split_is_linked(w, b);
    let l = circuit::splitter_link(list[s], b);
    assert(circuit::is_splitter_link(list, l));
    assert(links.contains(l));
    nets::links_are_joined(links, l.0, l.1);
}

/// Wires and splitters join nothing else: any grouping of the bits on a drawing that has the ends
/// of every wire in one group, bit by bit, and those of every splitter, has all bits of a net in
/// one group.
pub proof fn nothing_else_is_joined(
    circuit: Circuit,
    group: spec_fn(Lane) -> int,
    a: Lane,
    c: Lane,
)
    requires
        forall|w: int, b: int|
            0 <= w < circuit.wires@.len() && 0 <= b < 32 ==> group(
                #[trigger] lane_at(
                    (circuit.wires@[w].from[0] as int, circuit.wires@[w].from[1] as int),
                    b,
                ),
            ) == group(
                lane_at((circuit.wires@[w].to[0] as int, circuit.wires@[w].to[1] as int), b),
            ),
        forall|i: int, b: int|
            0 <= i < circuit.components@.len() && parts::is_splitter(circuit.components@[i])
                && splitter::wiring_of(circuit.components@[i]) is Ok && 0 <= b
                < splitter::wiring_of(circuit.components@[i])->Ok_0.ends.len()
                && splitter::wiring_of(circuit.components@[i])->Ok_0.ends[b] > 0 ==> group(
                (#[trigger] split(splitter::wiring_of(circuit.components@[i])->Ok_0, b)).0,
            ) == group(split(splitter::wiring_of(circuit.components@[i])->Ok_0, b).1),
        forall|i: int|
            0 <= i < circuit.components@.len() && #[trigger] parts::is_splitter(
                circuit.components@[i],
            ) ==> splitter::wiring_of(circuit.components@[i]) is Ok,
        nets::joined(circuit::links_of(circuit), a, c),
    ensures
        group(a) == group(c),
{
    let comps = circuit.components@;
    let links = circuit::links_of(circuit);
    let list = parts::splitters_among(comps, comps.len());
    assert forall|x: Lane, y: Lane| #[trigger] links.contains((x, y)) implies group(x) == group(
        y,
    ) by {
        if circuit::is_wire_link(circuit.wires@, (x, y)) {
            let (w, b) = choose|w: int, b: int|
                0 <= w < circuit.wires@.len() && 0 <= b < nets::MAX_WIDTH && (x, y)
                    == #[trigger] circuit::wire_link(circuit.wires@[w], b);
            assert(x == lane_at(
                (circuit.wires@[w].from[0] as int, circuit.wires@[w].from[1] as int),
                b,
            ));
        } else {
            let (s, b) = choose|s: int, b: int|
                0 <= s < list.len() && 0 <= b < list[s].ends.len() && list[s].ends[b] > 0 && (x, y)
                    == #[trigger] circuit::splitter_link(list[s], b);
            let i = among_are_splitters(comps, comps.len(), s);
            split_is_linked(list[s], b);
            let w = splitter::wiring_of(circuit.components@[i])->Ok_0;
            assert(split(w, b) == (x, y));
        }
    }
    nets::nets_are_least(links, group, a, c);
}

/// A splitter has its combined end at its own place, its fanout ends three to the right and below
/// each other, two of them for two bits where it does not say, and sends every bit to the end
/// that its list names.
pub proof fn splitters_have_their_ends(
    comp: ComponentInstance,
    fanout: i64,
    incoming: i64,
    entries: Vec<Option<i64>>,
    k: int,
)
    requires
        meaning::reads_int(comp, "fanout"@, 2, fanout),
        meaning::reads_int(comp, "incoming"@, 2, incoming),
        1 <= fanout <= 32,
        1 <= incoming <= 32,
        comp.attrs@.contains_key("bits"@),
        comp.attrs@["bits"@] == AttrValue::Array(entries),
        entries@.len() == incoming,
        forall|i: int|
            0 <= i < entries@.len() ==> (#[trigger] entries@[i] matches Some(n) && 0 <= n <= fanout),
    ensures
        splitter::wiring_of(comp) matches Ok(w) && ({
            &&& w.combined == geometry::placed(comp, (0, 0))
            &&& w.fanout.len() == fanout
            &&& 0 <= k < fanout ==> w.fanout[k] == geometry::placed(comp, (3, 2 * k))
            &&& w.ends.len() == incoming
            &&& 0 <= k < incoming ==> Some(w.ends[k] as i64) == entries@[k]
        }),
{
    listed(entries@, fanout as u8, entries@.len());
}

proof fn listed(entries: Seq<Option<i64>>, fanout: u8, k: nat)
    requires
        k <= entries.len(),
        forall|i: int|
            0 <= i < entries.len() ==> (#[trigger] entries[i] matches Some(n) && 0 <= n <= fanout),
    ensures
        splitter::listed_ends(entries, fanout, k) matches Ok(ends) && ends.len() == k && forall|
            i: int,
        |
            0 <= i < k ==> Some(#[trigger] ends[i] as i64) == entries[i],
    decreases k,
{
    if k > 0 {
        listed(entries, fanout, (k - 1) as nat);
        assert(entries[k - 1] is Some);
    }
}

/// Without a list the bits go to the ends in order, each end getting as many as the next or one
/// more: the end of a bit never comes before that of the bit below it, and the first bit goes to
/// the first end.
pub proof fn splitters_share_out_in_order(fanout: nat, bits: nat, i: nat, e: nat)
    requires
        0 < fanout,
        i < bits,
        1 <= e <= fanout,
    ensures
        ({
            let share = (bits / fanout) as int;
            let extra = (bits % fanout) as int;
            let lower = if e - 1 < extra {
                (e - 1) * (share + 1)
            } else {
                extra * (share + 1) + (e - 1 - extra) * share
            };
            let size = if e - 1 < extra {
                share + 1
            } else {
                share
            };
            splitter::default_end(fanout, bits, i) == e <==> lower <= i < lower + size
        }),
{
    splitter::default_ends_are_ranges(fanout, bits, i, e);
    let share = (bits / fanout) as int;
    let extra = (bits % fanout) as int;
    assert((e - 1) * (share + 1) == (e - 1) * share + (e - 1)) by (nonlinear_arith);
    assert(e * share == (e - 1) * share + share) by (nonlinear_arith);
    assert(extra * (share + 1) + (e - 1 - extra) * share == (e - 1) * share + extra)
        by (nonlinear_arith);
}

/// How many of the first `k` components are no splitters.
pub open spec fn nodes_before(comps: Seq<ComponentInstance>, k: nat) -> nat
    decreases k,
{
    if k == 0 {
        0
    } else if comps[k - 1].type_@ == "core:Splitter"@ {
        nodes_before(comps, (k - 1) as nat)
    } else {
        nodes_before(comps, (k - 1) as nat) + 1
    }
}

proof fn nodes_are_counted(comps: Seq<ComponentInstance>, k: nat)
    ensures
        parts::nodes_among(comps, k) == nodes_before(comps, k),
    decreases k,
{
    if k > 0 {
        nodes_are_counted(comps, (k - 1) as nat);
        splitters_by_type(comps[k - 1]);
    }
}

proof fn splitters_by_type(comp: ComponentInstance)
    ensures
        parts::is_splitter(comp) <==> comp.type_@ == "core:Splitter"@,
{
    if comp.type_@ == "core:Splitter"@ {
        reveal_strlit("core:Splitter");
        reveal_strlit("core:circuit/");
        if "core:circuit/"@.is_prefix_of(comp.type_@) {
            assert(comp.type_@.subrange(0, 13)[5] == comp.type_@[5]);
            assert("core:circuit/"@[5] != "core:Splitter"@[5]);
        }
    }
}

/// Every component but a splitter becomes the node that has as many nodes before it as there are
/// such components, and is found under its id.
pub proof fn components_are_nodes(
    table: Map<Seq<char>, PortWidths>,
    circuit: Circuit,
    t: crate::netlist::CircuitTemplate,
    i: int,
)
    requires
        circuit::is_compiled(table, circuit, t),
        0 <= i < circuit.components@.len(),
        circuit.components@[i].type_@ != "core:Splitter"@,
        forall|j: int, k: int|
            0 <= j < k < circuit.components@.len() ==> (#[trigger] circuit.components@[j]).id@
                != (#[trigger] circuit.components@[k]).id@,
    ensures
        ({
            let comps = circuit.components@;
            let n = nodes_before(comps, i as nat);
            &&& t.nodes@.len() == nodes_before(comps, comps.len())
            &&& t.component_index@.contains_key(comps[i].id@)
            &&& t.component_index@[comps[i].id@] == n as usize
            &&& parts::part_of(table, comps[i]) matches Ok(Part::Leaf(node)) ==> t.nodes@[n as int]
                == node
            &&& parts::part_of(table, comps[i]) matches Ok(Part::Instance(name)) ==> (
            t.nodes@[n as int] matches crate::netlist::TemplateNode::Subcircuit(sub) && sub@ == name)
        }),
{
    let comps = circuit.components@;
    nodes_are_counted(comps, i as nat);
    nodes_are_counted(comps, comps.len());
    splitters_by_type(comps[i]);
    indexed(comps, comps.len(), i);
    assert(parts::is_node_of(
        table,
        comps[i],
        t.nodes@[parts::nodes_among(comps, i as nat) as int],
    ));
}

proof fn indexed(comps: Seq<ComponentInstance>, k: nat, i: int)
    requires
        0 <= i < k <= comps.len(),
        !parts::is_splitter(comps[i]),
        forall|j: int, h: int|
            0 <= j < h < comps.len() ==> (#[trigger] comps[j]).id@ != (#[trigger] comps[h]).id@,
    ensures
        parts::index_of(comps, k).contains_key(comps[i].id@),
        parts::index_of(comps, k)[comps[i].id@] == parts::nodes_among(comps, i as nat) as usize,
    decreases k,
{
    if i < k - 1 {
        indexed(comps, (k - 1) as nat, i);
        assert(comps[i].id@ != comps[k - 1].id@);
    }
}

/// The pins of a component are numbered from zero and stand where it has them: the ports of an
/// instance two apart, the output ports six to the right of the input ports and numbered after
/// them.
pub proof fn instances_have_their_ports(
    table: Map<Seq<char>, PortWidths>,
    comp: ComponentInstance,
    name: Seq<char>,
    node: nat,
    p: int,
)
    requires
        comp.type_@ == "core:circuit/"@ + name,
        table.contains_key(name),
    ensures
        ({
            let inputs = parts::part_inputs(table, comp, node);
            let outputs = parts::part_outputs(table, comp, node);
            let widths = table[name];
            &&& inputs.len() == widths.inputs.len() && outputs.len() == widths.outputs.len()
            &&& 0 <= p < widths.inputs.len() ==> inputs[p] == (PinView {
                node,
                pin: p as nat,
                at: geometry::placed(comp, (0, 2 * p)),
                width: widths.inputs[p] as nat,
            })
            &&& 0 <= p < widths.outputs.len() ==> outputs[p] == (PinView {
                node,
                pin: (widths.inputs.len() + p) as nat,
                at: geometry::placed(comp, (6, 2 * p)),
                width: widths.outputs[p] as nat,
            })
        }),
{
    let prefix = "core:circuit/"@;
    assert(prefix.is_prefix_of(comp.type_@));
    assert(comp.type_@.skip(prefix.len() as int) =~= name);
}

/// The pins of a gate are numbered from zero, stand where its geometry has them, and have its
/// declared widths.
pub proof fn gates_stand_with_their_pins(
    table: Map<Seq<char>, PortWidths>,
    comp: ComponentInstance,
    leaf: crate::netlist::TemplateNode,
    node: nat,
    p: int,
)
    requires
        parts::part_of(table, comp) == Ok::<Part, Problem>(Part::Leaf(leaf)),
    ensures
        ({
            let inputs = parts::part_inputs(table, comp, node);
            let outputs = parts::part_outputs(table, comp, node);
            &&& inputs.len() == geometry::input_offsets(leaf).len()
            &&& outputs.len() == geometry::output_offsets(leaf).len()
            &&& 0 <= p < inputs.len() ==> inputs[p].node == node && inputs[p].pin == p
                && inputs[p].at == geometry::placed(comp, geometry::input_offsets(leaf)[p])
                && inputs[p].width == leaf.initial().input_width(p)
            &&& 0 <= p < outputs.len() ==> outputs[p].node == node && outputs[p].pin == p
                && outputs[p].at == geometry::placed(comp, geometry::output_offsets(leaf)[p])
                && outputs[p].width == leaf.initial().output_width(p)
        }),
{
}

/// The pins of a circuit are those of its components.
pub proof fn pins_are_those_of_the_components(
    table: Map<Seq<char>, PortWidths>,
    comps: Seq<ComponentInstance>,
    k: nat,
    pin: PinView,
)
    ensures
        parts::all_inputs(table, comps, k).contains(pin) <==> exists|i: int|
            0 <= i < k && (#[trigger] parts::part_inputs(
                table,
                comps[i],
                nodes_before(comps, i as nat),
            )).contains(pin),
        parts::all_outputs(table, comps, k).contains(pin) <==> exists|i: int|
            0 <= i < k && (#[trigger] parts::part_outputs(
                table,
                comps[i],
                nodes_before(comps, i as nat),
            )).contains(pin),
    decreases k,
{
    if k > 0 {
        let n = (k - 1) as nat;
        pins_are_those_of_the_components(table, comps, n, pin);
        nodes_are_counted(comps, n);
        let node = nodes_before(comps, n);
        in_either(
            parts::all_inputs(table, comps, n),
            parts::part_inputs(table, comps[n as int], node),
            pin,
        );
        in_either(
            parts::all_outputs(table, comps, n),
            parts::part_outputs(table, comps[n as int], node),
            pin,
        );
    }
}

proof fn in_either(a: Seq<PinView>, b: Seq<PinView>, x: PinView)
    ensures
        (a + b).contains(x) <==> a.contains(x) || b.contains(x),
{
    if a.contains(x) {
        let i = choose|i: int| 0 <= i < a.len() && a[i] == x;
        assert((a + b)[i] == x);
    }
    if b.contains(x) {
        let i = choose|i: int| 0 <= i < b.len() && b[i] == x;
        assert((a + b)[a.len() + i] == x);
    }
    if (a + b).contains(x) {
        let i = choose|i: int| 0 <= i < (a + b).len() && (a + b)[i] == x;
        if i < a.len() {
            assert(a[i] == x);
        } else {
            assert(b[i - a.len()] == x);
        }
    }
}

/// One text comes before another where it is a beginning of it, or where at the first place at
/// which they differ it has the smaller character.
pub proof fn texts_are_ordered_at_their_first_difference(a: Seq<char>, b: Seq<char>, k: int)
    requires
        0 <= k <= a.len(),
        k <= b.len(),
        forall|i: int| 0 <= i < k ==> a[i] == #[trigger] b[i],
    ensures
        k == a.len() && k < b.len() ==> ports::before(a, b),
        k < a.len() && k == b.len() ==> !ports::before(a, b),
        k < a.len() && k < b.len() && a[k] < b[k] ==> ports::before(a, b),
        k < a.len() && k < b.len() && a[k] > b[k] ==> !ports::before(a, b),
    decreases k,
{
    if k > 0 {
        let x = a.drop_first();
        let y = b.drop_first();
        assert(a[0] == b[0]);
        assert forall|i: int| 0 <= i < k - 1 implies x[i] == #[trigger] y[i] by {
            assert(a[i + 1] == b[i + 1]);
        }
        texts_are_ordered_at_their_first_difference(x, y, k - 1);
    }
}

/// Of circuits of the same name the last one counts.
pub proof fn the_last_circuit_of_a_name_counts(circuits: Seq<Circuit>, name: Seq<char>, k: nat)
    requires
        k <= circuits.len(),
    ensures
        match compile::last_named(circuits, name, k) {
            Some(i) => 0 <= i < k && circuits[i].name@ == name && forall|j: int|
                i < j < k ==> (#[trigger] circuits[j]).name@ != name,
            None => forall|j: int| 0 <= j < k ==> (#[trigger] circuits[j]).name@ != name,
        },
    decreases k,
{
    if k > 0 {
        the_last_circuit_of_a_name_counts(circuits, name, (k - 1) as nat);
    }
}

/// A circuit is refused for the first of its components with which something is wrong: one with
/// the id of an earlier one, or one that cannot be compiled.
pub proof fn circuits_are_refused_for_their_first_problem(
    table: Map<Seq<char>, PortWidths>,
    circuit: Circuit,
    k: nat,
    i: int,
)
    requires
        k <= circuit.components@.len(),
        0 <= i < k,
        forall|j: int|
            0 <= j < i ==> parts::part_of(table, #[trigger] circuit.components@[j]) is Ok,
        forall|h: int, j: int|
            0 <= h < j < i ==> (#[trigger] circuit.components@[h]).id@ != (
            #[trigger] circuit.components@[j]).id@,
    ensures
        ({
            let comp = circuit.components@[i];
            let known = exists|j: int|
                0 <= j < i && (#[trigger] circuit.components@[j]).id@ == comp.id@;
            let e = parts::circuit_error(table, circuit, k);
            &&& known ==> e == Some(
                (CompileErrorView {
                    circuit: circuit.name@,
                    id: comp.id@,
                    problem: Problem::DuplicateComponentId,
                }),
            )
            &&& !known ==> (parts::part_of(table, comp) matches Err(problem) ==> e == Some(
                (CompileErrorView { circuit: circuit.name@, id: comp.id@, problem }),
            ))
            &&& !known && parts::part_of(table, comp) is Ok && i + 1 == k ==> e is None
        }),
{
    nothing_wrong(table, circuit, i as nat);
    if parts::circuit_error(table, circuit, (i + 1) as nat) is Some {
        parts::error_stays(table, circuit, (i + 1) as nat, k);
    }
}

proof fn nothing_wrong(table: Map<Seq<char>, PortWidths>, circuit: Circuit, i: nat)
    requires
        forall|j: int|
            0 <= j < i ==> parts::part_of(table, #[trigger] circuit.components@[j]) is Ok,
        forall|h: int, j: int|
            0 <= h < j < i ==> (#[trigger] circuit.components@[h]).id@ != (
            #[trigger] circuit.components@[j]).id@,
    ensures
        parts::circuit_error(table, circuit, i) is None,
    decreases i,
{
    if i > 0 {
        nothing_wrong(table, circuit, (i - 1) as nat);
        assert(parts::part_of(table, circuit.components@[i - 1]) is Ok);
    }
}

/// Bit `b` of a port of a compiled circuit has behind it the bits of the pins on the net of that
/// bit at the port's place: of input pins for an input port, and of output pins for an output
/// port.
pub proof fn ports_are_on_nets(
    table: Map<Seq<char>, PortWidths>,
    circuit: Circuit,
    t: crate::netlist::CircuitTemplate,
    k: int,
    b: int,
    x: crate::netlist::BitRef,
)
    requires
        circuit::is_compiled(table, circuit, t),
    ensures
        ({
            let comps = circuit.components@;
            let links = circuit::links_of(circuit);
            let ins = ports::port_order(comps, "core:InputPin"@, comps.len());
            let outs = ports::port_order(comps, "core:OutputPin"@, comps.len());
            &&& t.input_ports@.len() == ins.len() && t.output_ports@.len() == outs.len()
            &&& 0 <= k < ins.len() && 0 <= b < t.input_ports@[k]@.len() ==> (
            t.input_ports@[k]@[b]@.contains(x) <==> soundness::is_bit_on(
                parts::all_inputs(table, comps, comps.len()),
                links,
                lane_at((comps[ins[k]].x as int, comps[ins[k]].y as int), b),
                x,
            ))
            &&& 0 <= k < outs.len() && 0 <= b < t.output_ports@[k]@.len() ==> (
            t.output_ports@[k]@[b]@.contains(x) <==> soundness::is_bit_on(
                parts::all_outputs(table, comps, comps.len()),
                links,
                lane_at((comps[outs[k]].x as int, comps[outs[k]].y as int), b),
                x,
            ))
        }),
{
    let comps = circuit.components@;
    let links = circuit::links_of(circuit);
    let ins = ports::port_order(comps, "core:InputPin"@, comps.len());
    let outs = ports::port_order(comps, "core:OutputPin"@, comps.len());
    if 0 <= k < ins.len() && 0 <= b < t.input_ports@[k]@.len() {
        assert(t.input_ports@[k]@[b]@ == circuit::bits_on(
            parts::all_inputs(table, comps, comps.len()),
            links,
            circuit::port_lane(comps[ins[k]], b),
            parts::all_inputs(table, comps, comps.len()).len(),
        ));
        soundness::bits_are_on_the_net(
            parts::all_inputs(table, comps, comps.len()),
            links,
            circuit::port_lane(comps[ins[k]], b),
            x,
        );
    }
    if 0 <= k < outs.len() && 0 <= b < t.output_ports@[k]@.len() {
        assert(t.output_ports@[k]@[b]@ == circuit::bits_on(
            parts::all_outputs(table, comps, comps.len()),
            links,
            circuit::port_lane(comps[outs[k]], b),
            parts::all_outputs(table, comps, comps.len()).len(),
        ));
        soundness::bits_are_on_the_net(
            parts::all_outputs(table, comps, comps.len()),
            links,
            circuit::port_lane(comps[outs[k]], b),
            x,
        );
    }
}

/// The nodes that only declare ports are those of the input and output pins.
pub proof fn pins_declare_ports(
    table: Map<Seq<char>, PortWidths>,
    circuit: Circuit,
    t: crate::netlist::CircuitTemplate,
    node: usize,
)
    requires
        circuit::is_compiled(table, circuit, t),
    ensures
        t.port_marker_nodes@.contains(node) <==> exists|c: int|
            0 <= c < circuit.components@.len() && (circuit.components@[c].type_@
                == "core:InputPin"@ || circuit.components@[c].type_@ == "core:OutputPin"@)
                && #[trigger] nodes_before(circuit.components@, c as nat) as usize == node,
{
    let comps = circuit.components@;
    let ins = ports::port_order(comps, "core:InputPin"@, comps.len());
    let outs = ports::port_order(comps, "core:OutputPin"@, comps.len());
    let order = ins + outs;
    let markers = t.port_marker_nodes@;
    assert(markers.len() == order.len());
    if markers.contains(node) {
        let i = choose|i: int| 0 <= i < markers.len() && markers[i] == node;
        let c = order[i];
        if i < ins.len() {
            assert(ins[i] == c);
            assert(ins.contains(c));
        } else {
            assert(outs[i - ins.len()] == c);
            assert(outs.contains(c));
        }
        ports::ports_are_of_the_type(comps, "core:InputPin"@, comps.len(), c);
        ports::ports_are_of_the_type(comps, "core:OutputPin"@, comps.len(), c);
        nodes_are_counted(comps, c as nat);
        assert(nodes_before(comps, c as nat) as usize == node);
    }
    if exists|c: int|
        0 <= c < comps.len() && (comps[c].type_@ == "core:InputPin"@ || comps[c].type_@
            == "core:OutputPin"@) && #[trigger] nodes_before(comps, c as nat) as usize == node {
        let c = choose|c: int|
            0 <= c < comps.len() && (comps[c].type_@ == "core:InputPin"@ || comps[c].type_@
                == "core:OutputPin"@) && #[trigger] nodes_before(comps, c as nat) as usize == node;
        nodes_are_counted(comps, c as nat);
        ports::ports_are_of_the_type(comps, "core:InputPin"@, comps.len(), c);
        ports::ports_are_of_the_type(comps, "core:OutputPin"@, comps.len(), c);
        if ins.contains(c) {
            let i = choose|i: int| 0 <= i < ins.len() && ins[i] == c;
            assert(order[i] == c);
            assert(markers[i] == node);
        } else {
            let i = choose|i: int| 0 <= i < outs.len() && outs[i] == c;
            assert(order[ins.len() + i] == c);
            assert(markers[ins.len() + i] == node);
        }
    }
}

/// A port has the width that its pin says, one bit where that is no width.
pub proof fn ports_have_their_widths(circuit: Circuit, k: int, width: i64)
    requires
        0 <= k < ports::ports_of(circuit).inputs.len(),
        ({
            let comps = circuit.components@;
            let c = ports::port_order(comps, "core:InputPin"@, comps.len())[k];
            meaning::reads_int(comps[c], "width"@, 1, width)
        }),
    ensures
        ports::ports_of(circuit).inputs[k] == (if 1 <= width <= 32 {
            width as u8
        } else {
            1u8
        }),
{
}

/// What splitters refuse: a number of ends or of bits outside 1 to 32, a list of another length
/// than the bits, an entry that is no integer, and one that names an end that there is not. The
/// first bad entry counts.
pub proof fn splitters_have_limits(
    comp: ComponentInstance,
    fanout: i64,
    incoming: i64,
    entries: Vec<Option<i64>>,
    k: int,
)
    requires
        meaning::reads_int(comp, "fanout"@, 2, fanout),
        meaning::reads_int(comp, "incoming"@, 2, incoming),
        comp.attrs@.contains_key("bits"@),
        comp.attrs@["bits"@] == AttrValue::Array(entries),
    ensures
        ({
            let r = splitter::wiring_of(comp);
            let fits = 1 <= fanout <= 32 && 1 <= incoming <= 32;
            let good_before_k = 0 <= k < entries@.len() && forall|i: int|
                0 <= i < k ==> (#[trigger] entries@[i] matches Some(n) && 0 <= n <= fanout);
            &&& fanout < 1 || fanout > 32 ==> r == Err::<WiringView, Problem>(
                Problem::InvalidFanout(fanout),
            )
            &&& 1 <= fanout <= 32 && (incoming < 1 || incoming > 32) ==> r == Err::<
                WiringView,
                Problem,
            >(Problem::InvalidWidth(incoming))
            &&& fits && entries@.len() != incoming ==> r == Err::<WiringView, Problem>(
                Problem::InvalidSplitterBits(
                    "expected "@ + text::decimal(incoming as nat) + " entries, got "@
                        + text::decimal(entries@.len()),
                ),
            )
            &&& fits && entries@.len() == incoming && good_before_k && entries@[k] is None ==> r
                == Err::<WiringView, Problem>(
                Problem::InvalidSplitterBits("entries must be integers"@),
            )
            &&& fits && entries@.len() == incoming && good_before_k ==> (entries@[k] matches Some(n)
                ==> (n < 0 || n > fanout ==> r == Err::<WiringView, Problem>(
                Problem::InvalidSplitterBits(
                    "entry "@ + text::decimal_int(n as int) + " outside 0..="@ + text::decimal(
                        fanout as nat,
                    ),
                ),
            )))
        }),
{
    let list = entries@;
    if 1 <= fanout <= 32 && 0 <= k < list.len() && forall|i: int|
        0 <= i < k ==> (#[trigger] list[i] matches Some(n) && 0 <= n <= fanout) {
        let f = fanout as u8;
        let head = list.take(k);
        assert forall|i: int| 0 <= i < head.len() implies (#[trigger] head[i] matches Some(n) && 0
            <= n <= f) by {
            assert(head[i] == list[i]);
        }
        listed(head, f, k as nat);
        same_listed(head, list, f, k as nat);
        if splitter::listed_ends(list, f, (k + 1) as nat) is Err {
            stays_bad(list, f, (k + 1) as nat, list.len());
        }
    }
}

proof fn same_listed(a: Seq<Option<i64>>, b: Seq<Option<i64>>, fanout: u8, k: nat)
    requires
        k <= a.len() <= b.len(),
        a == b.take(a.len() as int),
    ensures
        splitter::listed_ends(a, fanout, k) == splitter::listed_ends(b, fanout, k),
    decreases k,
{
    if k > 0 {
        same_listed(a, b, fanout, (k - 1) as nat);
        assert(a[k - 1] == b[k - 1]);
    }
}

proof fn stays_bad(list: Seq<Option<i64>>, fanout: u8, k: nat, n: nat)
    requires
        k <= n,
        splitter::listed_ends(list, fanout, k) is Err,
    ensures
        splitter::listed_ends(list, fanout, n) == splitter::listed_ends(list, fanout, k),
    decreases n,
{
    if k < n {
        stays_bad(list, fanout, k, (n - 1) as nat);
    }
}

} // verus!
