//! What holds of everything that was compiled: connections run along nets and between pins that
//! exist, so compiled circuits can be elaborated and simulated.
use vstd::prelude::*;
use crate::compile;
use crate::compile::circuit;
use crate::compile::geometry;
use crate::compile::nets;
use crate::compile::nets::Lane;
use crate::compile::parts;
use crate::compile::parts::{Part, PinView};
use crate::compile::ports;
use crate::components::plexers;
use crate::components::GateView;
use crate::file_format::{Circuit, ComponentInstance};
use crate::netlist;
use crate::netlist::{BitRef, CircuitTemplate, TemplateNode, Wire};

verus! {

/// A bit of one of the pins that is on the net of a lane.
pub open spec fn is_bit_on(
    list: Seq<PinView>,
    links: Set<(Lane, Lane)>,
    lane: Lane,
    x: BitRef,
) -> bool {
    exists|i: int, b: int|
        0 <= i < list.len() && 0 <= b < list[i].width && x == #[trigger] list[i].bit(b)
            && nets::joined(links, list[i].lane(b), lane)
}

proof fn pin_bits_are_on_the_net(
    pin: PinView,
    links: Set<(Lane, Lane)>,
    lane: Lane,
    b: nat,
    x: BitRef,
)
    ensures
        circuit::pin_bits_on(pin, links, lane, b).contains(x) <==> exists|c: int|
            0 <= c < b && x == #[trigger] pin.bit(c) && nets::joined(links, pin.lane(c), lane),
    decreases b,
{
    if b > 0 {
        let before = circuit::pin_bits_on(pin, links, lane, (b - 1) as nat);
        let now = circuit::pin_bits_on(pin, links, lane, b);
        pin_bits_are_on_the_net(pin, links, lane, (b - 1) as nat, x);
        if nets::joined(links, pin.lane(b - 1), lane) {
            assert(now[before.len() as int] == pin.bit(b - 1));
            if before.contains(x) {
                let j = choose|j: int| 0 <= j < before.len() && before[j] == x;
                assert(now[j] == x);
            }
            if now.contains(x) && x != pin.bit(b - 1) {
                let j = choose|j: int| 0 <= j < now.len() && now[j] == x;
                assert(before[j] == x);
            }
        }
    }
}

proof fn concat_contains<T>(a: Seq<T>, b: Seq<T>, x: T)
    ensures
        (a + b).contains(x) <==> a.contains(x) || b.contains(x),
{
    if a.contains(x) {
        let i = choose|i: int| 0 <= i < a.len() && a[i] == x;
        assert((a + b)[i] == x);
    }
    if b.contains(x) {
        let i = choose|i: int| 0 <= i < b.len() && b[i] == x;
        assert((a + b)[a.len() + i] == x);
    }
    if (a + b).contains(x) {
        let i = choose|i: int| 0 <= i < (a + b).len() && (a + b)[i] == x;
        if i < a.len() {
            assert(a[i] == x);
        } else {
            assert(b[i - a.len()] == x);
        }
    }
}

proof fn bits_are_on_the_net_up_to(
    list: Seq<PinView>,
    links: Set<(Lane, Lane)>,
    lane: Lane,
    k: nat,
    x: BitRef,
)
    requires
        k <= list.len(),
    ensures
        circuit::bits_on(list, links, lane, k).contains(x) <==> is_bit_on(
            list.take(k as int),
            links,
            lane,
            x,
        ),
    decreases k,
{
    let now = list.take(k as int);
    if k > 0 {
        let before = list.take(k - 1);
        let pin = list[k - 1];
        bits_are_on_the_net_up_to(list, links, lane, (k - 1) as nat, x);
        pin_bits_are_on_the_net(pin, links, lane, pin.width, x);
        concat_contains(
            circuit::bits_on(list, links, lane, (k - 1) as nat),
            circuit::pin_bits_on(pin, links, lane, pin.width),
            x,
        );
        if is_bit_on(before, links, lane, x) {
            let (i, b) = choose|i: int, b: int|
                0 <= i < before.len() && 0 <= b < before[i].width && x == #[trigger] before[i].bit(b)
                    && nets::joined(links, before[i].lane(b), lane);
            assert(now[i] == before[i]);
            assert(x == now[i].bit(b));
        }
        if circuit::pin_bits_on(pin, links, lane, pin.width).contains(x) {
            let c = choose|c: int|
                0 <= c < pin.width && x == #[trigger] pin.bit(c) && nets::joined(
                    links,
                    pin.lane(c),
                    lane,
                );
            assert(now[k - 1] == pin);
            assert(x == now[k - 1].bit(c));
        }
        if is_bit_on(now, links, lane, x) {
            let (i, b) = choose|i: int, b: int|
                0 <= i < now.len() && 0 <= b < now[i].width && x == #[trigger] now[i].bit(b)
                    && nets::joined(links, now[i].lane(b), lane);
            if i < k - 1 {
                assert(before[i] == now[i]);
                assert(x == before[i].bit(b));
            } else {
                assert(x == pin.bit(b));
            }
        }
    }
}

/// What is listed for a net are the pins' bits on it, and nothing else.
pub proof fn bits_are_on_the_net(
    list: Seq<PinView>,
    links: Set<(Lane, Lane)>,
    lane: Lane,
    x: BitRef,
)
    ensures
        circuit::bits_on(list, links, lane, list.len()).contains(x) <==> is_bit_on(
            list,
            links,
            lane,
            x,
        ),
{
    assert(list.take(list.len() as int) =~= list);
    bits_are_on_the_net_up_to(list, links, lane, list.len(), x);
}

/// A bit of an output pin and a bit of an input pin on the same net.
pub open spec fn is_connection(
    outputs: Seq<PinView>,
    links: Set<(Lane, Lane)>,
    inputs: Seq<PinView>,
    c: Wire,
) -> bool {
    exists|i: int, b: int|
        0 <= i < inputs.len() && 0 <= b < inputs[i].width && c.1 == #[trigger] inputs[i].bit(b)
            && is_bit_on(outputs, links, inputs[i].lane(b), c.0)
}

proof fn pin_connections_are_connections(
    outputs: Seq<PinView>,
    links: Set<(Lane, Lane)>,
    pin: PinView,
    b: nat,
    c: Wire,
)
    ensures
        circuit::pin_connections(outputs, links, pin, b).contains(c) <==> exists|d: int|
            0 <= d < b && c.1 == #[trigger] pin.bit(d) && is_bit_on(
                outputs,
                links,
                pin.lane(d),
                c.0,
            ),
    decreases b,
{
    if b > 0 {
        let srcs = circuit::bits_on(outputs, links, pin.lane(b - 1), outputs.len());
        let dst = pin.bit(b - 1);
        let fan = circuit::fan_in(srcs, dst);
        pin_connections_are_connections(outputs, links, pin, (b - 1) as nat, c);
        concat_contains(circuit::pin_connections(outputs, links, pin, (b - 1) as nat), fan, c);
        bits_are_on_the_net(outputs, links, pin.lane(b - 1), c.0);
        if fan.contains(c) {
            let j = choose|j: int| 0 <= j < fan.len() && fan[j] == c;
            assert(srcs[j] == c.0);
            assert(srcs.contains(c.0));
        }
        if c.1 == dst && srcs.contains(c.0) {
            let j = choose|j: int| 0 <= j < srcs.len() && srcs[j] == c.0;
            assert(fan[j] == c);
        }
    }
}

proof fn connections_up_to(
    outputs: Seq<PinView>,
    links: Set<(Lane, Lane)>,
    inputs: Seq<PinView>,
    k: nat,
    c: Wire,
)
    requires
        k <= inputs.len(),
    ensures
        circuit::connections_to(outputs, links, inputs, k).contains(c) <==> is_connection(
            outputs,
            links,
            inputs.take(k as int),
            c,
        ),
    decreases k,
{
    let now = inputs.take(k as int);
    if k > 0 {
        let before = inputs.take(k - 1);
        let pin = inputs[k - 1];
        connections_up_to(outputs, links, inputs, (k - 1) as nat, c);
        pin_connections_are_connections(outputs, links, pin, pin.width, c);
        concat_contains(
            circuit::connections_to(outputs, links, inputs, (k - 1) as nat),
            circuit::pin_connections(outputs, links, pin, pin.width),
            c,
        );
        if is_connection(outputs, links, before, c) {
            let (i, b) = choose|i: int, b: int|
                0 <= i < before.len() && 0 <= b < before[i].width && c.1
                    == #[trigger] before[i].bit(b) && is_bit_on(
                    outputs,
                    links,
                    before[i].lane(b),
                    c.0,
                );
            assert(now[i] == before[i]);
            assert(c.1 == now[i].bit(b));
        }
        if circuit::pin_connections(outputs, links, pin, pin.width).contains(c) {
            let d = choose|d: int|
                0 <= d < pin.width && c.1 == #[trigger] pin.bit(d) && is_bit_on(
                    outputs,
                    links,
                    pin.lane(d),
                    c.0,
                );
            assert(now[k - 1] == pin);
            assert(c.1 == now[k - 1].bit(d));
        }
        if is_connection(outputs, links, now, c) {
            let (i, b) = choose|i: int, b: int|
                0 <= i < now.len() && 0 <= b < now[i].width && c.1 == #[trigger] now[i].bit(b)
                    && is_bit_on(outputs, links, now[i].lane(b), c.0);
            if i < k - 1 {
                assert(before[i] == now[i]);
                assert(c.1 == before[i].bit(b));
            } else {
                assert(c.1 == pin.bit(b));
            }
        }
    }
}

/// An output bit is connected to an input bit if and only if they are on the same net.
pub proof fn connections_follow_nets(
    outputs: Seq<PinView>,
    links: Set<(Lane, Lane)>,
    inputs: Seq<PinView>,
    c: Wire,
)
    ensures
        circuit::connections_to(outputs, links, inputs, inputs.len()).contains(c)
            <==> is_connection(outputs, links, inputs, c),
{
    assert(inputs.take(inputs.len() as int) =~= inputs);
    connections_up_to(outputs, links, inputs, inputs.len(), c);
}

proof fn counts_fit(node: TemplateNode)
    requires
        parts::is_sound(node),
    ensures
        node.initial().input_count() <= usize::MAX,
        node.initial().output_count() <= usize::MAX,
{
    match node {
        TemplateNode::Mux { select_bits, .. }
        | TemplateNode::Demux { select_bits, .. }
        | TemplateNode::Decoder { select_bits, .. }
        | TemplateNode::PriorityEncoder { select_bits, .. } => {
            plexers::lines_fit(select_bits as nat);
        },
        _ => {},
    }
}

/// A circuit of the project compiled without error.
proof fn circuits_have_no_error(circuits: Seq<Circuit>, k: nat, i: int)
    requires
        compile::project_error(circuits, k) is None,
        0 <= i < k,
    ensures
        parts::circuit_error(
            compile::table_of(circuits),
            circuits[i],
            circuits[i].components@.len(),
        ) is None,
    decreases k,
{
    if i < k - 1 {
        circuits_have_no_error(circuits, (k - 1) as nat, i);
    }
}

proof fn table_follows_names(circuits: Seq<Circuit>, name: Seq<char>, k: nat)
    ensures
        match compile::last_named(circuits, name, k) {
            Some(i) => 0 <= i < k && circuits[i].name@ == name && ports::port_table(
                circuits,
                k,
            ).contains_key(name) && ports::port_table(circuits, k)[name] == ports::ports_of(
                circuits[i],
            ),
            None => !ports::port_table(circuits, k).contains_key(name),
        },
    decreases k,
{
    if k > 0 {
        table_follows_names(circuits, name, (k - 1) as nat);
    }
}

/// The ports of a compiled circuit are as many and as wide as its table entry says.
proof fn ports_are_as_announced(
    circuits: Seq<Circuit>,
    lib: Map<Seq<char>, CircuitTemplate>,
    name: Seq<char>,
)
    requires
        compile::is_library(circuits, circuits.len(), lib),
        compile::table_of(circuits).contains_key(name),
    ensures
        lib.contains_key(name),
        lib[name].input_ports@.len() == compile::table_of(circuits)[name].inputs.len(),
        lib[name].output_ports@.len() == compile::table_of(circuits)[name].outputs.len(),
        forall|p: int|
            0 <= p < lib[name].input_ports@.len() ==> (#[trigger] lib[name].input_ports@[p])@.len()
                == compile::table_of(circuits)[name].inputs[p],
        forall|p: int|
            0 <= p < lib[name].output_ports@.len() ==> (
            #[trigger] lib[name].output_ports@[p])@.len()
                == compile::table_of(circuits)[name].outputs[p],
{
    table_follows_names(circuits, name, circuits.len());
    assert(lib.contains_key(name));
}

/// The pin's bits can be driven.
spec fn pin_writable(
    lib: Map<Seq<char>, CircuitTemplate>,
    nodes: Seq<TemplateNode>,
    pin: PinView,
) -> bool {
    forall|b: int| 0 <= b < pin.width ==> netlist::writable(lib, nodes, #[trigger] pin.bit(b))
}

/// The pin's bits can be read.
spec fn pin_readable(
    lib: Map<Seq<char>, CircuitTemplate>,
    nodes: Seq<TemplateNode>,
    pin: PinView,
) -> bool {
    forall|b: int| 0 <= b < pin.width ==> netlist::readable(lib, nodes, #[trigger] pin.bit(b))
}

proof fn part_pins_exist(
    circuits: Seq<Circuit>,
    lib: Map<Seq<char>, CircuitTemplate>,
    i: int,
    nodes: Seq<TemplateNode>,
    k: int,
)
    requires
        compile::is_library(circuits, circuits.len(), lib),
        compile::project_error(circuits, circuits.len()) is None,
        ports::is_sane(compile::table_of(circuits)),
        0 <= i < circuits.len(),
        0 <= k < circuits[i].components@.len(),
        parts::are_nodes_of(
            compile::table_of(circuits),
            circuits[i].components@,
            circuits[i].components@.len(),
            nodes,
        ),
        nodes.len() <= usize::MAX,
    ensures
        ({
            let table = compile::table_of(circuits);
            let comps = circuits[i].components@;
            let n = parts::nodes_among(comps, k as nat);
            let ins = parts::part_inputs(table, comps[k], n);
            let outs = parts::part_outputs(table, comps[k], n);
            &&& forall|j: int|
                0 <= j < ins.len() ==> pin_writable(lib, nodes, #[trigger] ins[j])
            &&& forall|j: int|
                0 <= j < outs.len() ==> pin_readable(lib, nodes, #[trigger] outs[j])
        }),
{
    let table = compile::table_of(circuits);
    let comps = circuits[i].components@;
    let comp = comps[k];
    let n = parts::nodes_among(comps, k as nat);
    let ins = parts::part_inputs(table, comp, n);
    let outs = parts::part_outputs(table, comp, n);
    circuits_have_no_error(circuits, circuits.len(), i);
    parts::no_error_means_parts(table, circuits[i], comps.len(), k);
    if !parts::is_splitter(comp) {
        parts::nodes_among_grows(comps, (k + 1) as nat, comps.len());
        let node = nodes[n as int];
        assert(parts::is_node_of(table, comp, node));
        match parts::part_of(table, comp) {
            Ok(Part::Leaf(leaf)) => {
                parts::leaves_are_sound(comp);
                geometry::every_pin_has_a_place(leaf);
                counts_fit(leaf);
                assert forall|j: int| 0 <= j < ins.len() implies pin_writable(
                    lib,
                    nodes,
                    #[trigger] ins[j],
                ) by {
                    assert(parts::is_width(leaf.initial().input_width(j)));
                }
                assert forall|j: int| 0 <= j < outs.len() implies pin_readable(
                    lib,
                    nodes,
                    #[trigger] outs[j],
                ) by {
                    assert(parts::is_width(leaf.initial().output_width(j)));
                }
            },
            Ok(Part::Instance(name)) => {
                ports_are_as_announced(circuits, lib, name);
                let w = table[name];
                assert forall|j: int| 0 <= j < ins.len() implies pin_writable(
                    lib,
                    nodes,
                    #[trigger] ins[j],
                ) by {
                    assert(1 <= w.inputs[j] <= 32);
                    assert(lib[name].input_ports@[j]@.len() == w.inputs[j]);
                }
                assert forall|j: int| 0 <= j < outs.len() implies pin_readable(
                    lib,
                    nodes,
                    #[trigger] outs[j],
                ) by {
                    assert(1 <= w.outputs[j] <= 32);
                    assert(lib[name].output_ports@[j]@.len() == w.outputs[j]);
                }
            },
            _ => {},
        }
    }
}

proof fn all_pins_exist(
    circuits: Seq<Circuit>,
    lib: Map<Seq<char>, CircuitTemplate>,
    i: int,
    nodes: Seq<TemplateNode>,
    k: nat,
)
    requires
        compile::is_library(circuits, circuits.len(), lib),
        compile::project_error(circuits, circuits.len()) is None,
        ports::is_sane(compile::table_of(circuits)),
        0 <= i < circuits.len(),
        k <= circuits[i].components@.len(),
        parts::are_nodes_of(
            compile::table_of(circuits),
            circuits[i].components@,
            circuits[i].components@.len(),
            nodes,
        ),
        nodes.len() <= usize::MAX,
    ensures
        ({
            let table = compile::table_of(circuits);
            let comps = circuits[i].components@;
            let ins = parts::all_inputs(table, comps, k);
            let outs = parts::all_outputs(table, comps, k);
            &&& forall|j: int|
                0 <= j < ins.len() ==> pin_writable(lib, nodes, #[trigger] ins[j])
            &&& forall|j: int|
                0 <= j < outs.len() ==> pin_readable(lib, nodes, #[trigger] outs[j])
        }),
    decreases k,
{
    if k > 0 {
        let table = compile::table_of(circuits);
        let comps = circuits[i].components@;
        let n = parts::nodes_among(comps, (k - 1) as nat);
        all_pins_exist(circuits, lib, i, nodes, (k - 1) as nat);
        part_pins_exist(circuits, lib, i, nodes, k - 1);
        let a = parts::all_inputs(table, comps, (k - 1) as nat);
        let b = parts::part_inputs(table, comps[k - 1], n);
        let ins = parts::all_inputs(table, comps, k);
        assert forall|j: int| 0 <= j < ins.len() implies pin_writable(
            lib,
            nodes,
            #[trigger] ins[j],
        ) by {
            if j < a.len() {
                assert(ins[j] == a[j]);
            } else {
                assert(ins[j] == b[j - a.len()]);
            }
        }
        let c = parts::all_outputs(table, comps, (k - 1) as nat);
        let d = parts::part_outputs(table, comps[k - 1], n);
        let outs = parts::all_outputs(table, comps, k);
        assert forall|j: int| 0 <= j < outs.len() implies pin_readable(
            lib,
            nodes,
            #[trigger] outs[j],
        ) by {
            if j < c.len() {
                assert(outs[j] == c[j]);
            } else {
                assert(outs[j] == d[j - c.len()]);
            }
        }
    }
}

/// The component that became a node.
proof fn component_of_node(comps: Seq<ComponentInstance>, k: nat, n: int) -> (i: int)
    requires
        0 <= n < parts::nodes_among(comps, k),
    ensures
        0 <= i < k,
        !parts::is_splitter(comps[i]),
        parts::nodes_among(comps, i as nat) == n,
    decreases k,
{
    if !parts::is_splitter(comps[k - 1]) && parts::nodes_among(comps, (k - 1) as nat) == n {
        k - 1
    } else {
        component_of_node(comps, (k - 1) as nat, n)
    }
}

proof fn compiled_nodes(
    circuits: Seq<Circuit>,
    lib: Map<Seq<char>, CircuitTemplate>,
    name: Seq<char>,
    n: int,
)
    requires
        compile::is_library(circuits, circuits.len(), lib),
        compile::project_error(circuits, circuits.len()) is None,
        lib.contains_key(name),
        0 <= n < lib[name].nodes@.len(),
    ensures
        lib[name].nodes@[n] is Subcircuit || parts::is_sound(lib[name].nodes@[n]),
        lib[name].nodes@[n].buildable(),
{
    table_follows_names(circuits, name, circuits.len());
    let i = compile::last_named(circuits, name, circuits.len())->0;
    let comps = circuits[i].components@;
    let k = component_of_node(comps, comps.len(), n);
    circuits_have_no_error(circuits, circuits.len(), i);
    parts::no_error_means_parts(compile::table_of(circuits), circuits[i], comps.len(), k);
    assert(parts::is_node_of(compile::table_of(circuits), comps[k], lib[name].nodes@[n]));
    if parts::part_of(compile::table_of(circuits), comps[k]) matches Ok(Part::Leaf(_)) {
        parts::leaves_are_sound(comps[k]);
    }
}

/// All gates of compiled circuits can be simulated, and take actions.
pub proof fn compiled_is_runnable(circuits: Seq<Circuit>, lib: Map<Seq<char>, CircuitTemplate>)
    requires
        compile::is_library(circuits, circuits.len(), lib),
        compile::project_error(circuits, circuits.len()) is None,
    ensures
        netlist::leaves_satisfy(
            lib,
            |g: GateView| g.runnable() && g.tolerates(u64::MAX as nat),
        ),
{
    let holds = |g: GateView| g.runnable() && g.tolerates(u64::MAX as nat);
    assert forall|name: Seq<char>, n: int|
        lib.contains_key(name) && 0 <= n < lib[name].nodes@.len() && !(
        lib[name].nodes@[n] is Subcircuit) implies holds(
        (#[trigger] lib[name].nodes@[n]).initial(),
    ) by {
        compiled_nodes(circuits, lib, name, n);
    }
}

/// A compiled circuit's connections and ports refer to pins that exist.
pub proof fn compiled_is_consistent(
    circuits: Seq<Circuit>,
    lib: Map<Seq<char>, CircuitTemplate>,
    name: Seq<char>,
    is_entry: bool,
)
    requires
        compile::is_library(circuits, circuits.len(), lib),
        compile::project_error(circuits, circuits.len()) is None,
        ports::is_sane(compile::table_of(circuits)),
        lib.contains_key(name),
        lib[name].nodes@.len() <= usize::MAX,
    ensures
        netlist::template_ok(lib, lib[name], is_entry),
{
    let t = lib[name];
    let nodes = t.nodes@;
    table_follows_names(circuits, name, circuits.len());
    let i = compile::last_named(circuits, name, circuits.len())->0;
    let table = compile::table_of(circuits);
    let comps = circuits[i].components@;
    let links = circuit::links_of(circuits[i]);
    let inputs = parts::all_inputs(table, comps, comps.len());
    let outputs = parts::all_outputs(table, comps, comps.len());
    all_pins_exist(circuits, lib, i, nodes, comps.len());
    assert forall|n: int| 0 <= n < nodes.len() implies (#[trigger] nodes[n]).buildable() by {
        compiled_nodes(circuits, lib, name, n);
    }
    assert forall|c: int| 0 <= c < t.connections@.len() implies netlist::readable(
        lib,
        nodes,
        (#[trigger] t.connections@[c]).0,
    ) && netlist::writable(lib, nodes, t.connections@[c].1) by {
        let w = t.connections@[c];
        assert(t.connections@.contains(w));
        connections_follow_nets(outputs, links, inputs, w);
        let (j, b) = choose|j: int, b: int|
            0 <= j < inputs.len() && 0 <= b < inputs[j].width && w.1 == #[trigger] inputs[j].bit(b)
                && is_bit_on(outputs, links, inputs[j].lane(b), w.0);
        assert(pin_writable(lib, nodes, inputs[j]));
        bit_is_readable(lib, nodes, outputs, links, inputs[j].lane(b), w.0);
    }
    assert forall|p: int, b: int, k: int|
        0 <= p < t.input_ports@.len() && 0 <= b < t.input_ports@[p]@.len() && 0 <= k
            < t.input_ports@[p]@[b]@.len() implies netlist::writable(
        lib,
        nodes,
        #[trigger] t.input_ports@[p]@[b]@[k],
    ) by {
        let list = t.input_ports@[p]@[b]@;
        let order = ports::port_order(comps, "core:InputPin"@, comps.len());
        let lane = circuit::port_lane(comps[order[p]], b);
        assert(list == circuit::bits_on(inputs, links, lane, inputs.len()));
        assert(list.contains(list[k]));
        bits_are_on_the_net(inputs, links, lane, list[k]);
        let (j, c) = choose|j: int, c: int|
            0 <= j < inputs.len() && 0 <= c < inputs[j].width && list[k] == #[trigger] inputs[j].bit(
                c,
            ) && nets::joined(links, inputs[j].lane(c), lane);
        assert(pin_writable(lib, nodes, inputs[j]));
    }
    assert forall|p: int, b: int, k: int|
        0 <= p < t.output_ports@.len() && 0 <= b < t.output_ports@[p]@.len() && 0 <= k
            < t.output_ports@[p]@[b]@.len() implies netlist::readable(
        lib,
        nodes,
        #[trigger] t.output_ports@[p]@[b]@[k],
    ) by {
        let list = t.output_ports@[p]@[b]@;
        let order = ports::port_order(comps, "core:OutputPin"@, comps.len());
        let lane = circuit::port_lane(comps[order[p]], b);
        assert(list == circuit::bits_on(outputs, links, lane, outputs.len()));
        assert(list.contains(list[k]));
        bits_are_on_the_net(outputs, links, lane, list[k]);
        bit_is_readable(lib, nodes, outputs, links, lane, list[k]);
    }
}

proof fn bit_is_readable(
    lib: Map<Seq<char>, CircuitTemplate>,
    nodes: Seq<TemplateNode>,
    outputs: Seq<PinView>,
    links: Set<(Lane, Lane)>,
    lane: Lane,
    x: BitRef,
)
    requires
        forall|j: int|
            0 <= j < outputs.len() ==> pin_readable(lib, nodes, #[trigger] outputs[j]),
        is_bit_on(outputs, links, lane, x),
    ensures
        netlist::readable(lib, nodes, x),
{
    let (j, c) = choose|j: int, c: int|
        0 <= j < outputs.len() && 0 <= c < outputs[j].width && x == #[trigger] outputs[j].bit(c)
            && nets::joined(links, outputs[j].lane(c), lane);
    assert(pin_readable(lib, nodes, outputs[j]));
}

/// Compiled circuits can be elaborated, whatever they instantiate.
pub proof fn compiled_can_be_elaborated(
    circuits: Seq<Circuit>,
    lib: Map<Seq<char>, CircuitTemplate>,
    name: Seq<char>,
    stack: Seq<Seq<char>>,
    is_entry: bool,
)
    requires
        lib.dom().finite(),
        compile::is_library(circuits, circuits.len(), lib),
        compile::project_error(circuits, circuits.len()) is None,
        ports::is_sane(compile::table_of(circuits)),
        forall|n: Seq<char>| #[trigger] lib.contains_key(n) ==> lib[n].nodes@.len() <= usize::MAX,
    ensures
        netlist::can_elaborate(lib, name, stack, is_entry),
    decreases netlist::remaining(lib, stack),
{
    if !stack.contains(name) && lib.contains_key(name) {
        netlist::remaining_shrinks(lib, stack, name);
        compiled_is_consistent(circuits, lib, name, is_entry);
        assert forall|i: int| 0 <= i < lib[name].nodes@.len() implies (
        #[trigger] lib[name].nodes@[i] matches TemplateNode::Subcircuit(sub)
            ==> netlist::can_elaborate(lib, sub@, stack.push(name), false)) by {
            if let TemplateNode::Subcircuit(sub) = lib[name].nodes@[i] {
                compiled_can_be_elaborated(circuits, lib, sub@, stack.push(name), false);
            }
        }
    }
}

} // verus!
