//! What the pins of a circuit show, as lines of text.
use std::collections::HashMap;
use vstd::prelude::*;
use vstd::string::StringExecFns;
use crate::compile;
use crate::compile::CompileError;
use crate::file_format::{Circuit, ComponentInstance, ProjectFile};
use crate::name_map::NameMap;
use crate::netlist;
use crate::netlist::{
    CircuitTemplate, Elaborated, Library, Netlist, NetlistError, NetlistErrorView,
};
use crate::plugin_abi;
use crate::plugin_abi::{Bit, ReadoutError, Value, ValueView};
use crate::sim;
use crate::sim::{SimView, Simulation};
use crate::text;

verus! {

/// How a bit is shown.
pub open spec fn bit_shown(b: Bit) -> char {
    match b {
        Bit::Zero => '0',
        Bit::One => '1',
        Bit::Unknown => 'x',
        Bit::Error => 'E',
    }
}

/// How a bit is shown.
pub fn bit_char(b: Bit) -> (r: char)
    ensures
        r == bit_shown(b),
{
    match b {
        Bit::Zero => '0',
        Bit::One => '1',
        Bit::Unknown => 'x',
        Bit::Error => 'E',
    }
}

/// Bits, the lowest first.
pub open spec fn bits_shown(bits: Seq<Bit>) -> Seq<char> {
    Seq::new(bits.len(), |i: int| bit_shown(bits[i]))
}

/// What a pin shows, or that it could not be read.
#[derive(Debug, Clone, PartialEq)]
pub enum PinLine {
    Shown(String),
    Failed(String),
}

/// The mathematical content of a [`PinLine`].
pub enum PinLineView {
    Shown(Seq<char>),
    Failed(Seq<char>),
}

impl View for PinLine {
    type V = PinLineView;

    open spec fn view(&self) -> PinLineView {
        match self {
            PinLine::Shown(s) => PinLineView::Shown(s@),
            PinLine::Failed(s) => PinLineView::Failed(s@),
        }
    }
}

/// The start of a pin's line: its id and type.
pub open spec fn heading(comp: ComponentInstance) -> Seq<char> {
    "  "@ + comp.id@ + " ("@ + comp.type_@ + ")"@
}

/// The line of a pin with this readout.
pub open spec fn line_of(
    comp: ComponentInstance,
    outcome: Result<ValueView, Seq<char>>,
) -> PinLineView {
    match outcome {
        Ok(ValueView::Bits(bits)) => PinLineView::Shown(
            heading(comp) + " = "@ + bits_shown(bits),
        ),
        Ok(v) => PinLineView::Shown(heading(comp) + " = "@ + v.text()),
        Err(name) => PinLineView::Failed(
            heading(comp) + ": read failed: "@ + plugin_abi::unknown_readout_text(name),
        ),
    }
}

/// Which gate a component became, if it became one: its id tells its node, and the node tells
/// its gate.
pub open spec fn gate_of(
    comp: ComponentInstance,
    index: Map<Seq<char>, usize>,
    gates: Map<usize, usize>,
) -> Option<usize> {
    if index.contains_key(comp.id@) && gates.contains_key(index[comp.id@]) {
        Some(gates[index[comp.id@]])
    } else {
        None
    }
}

/// The component is an input or an output pin.
pub open spec fn is_pin(comp: ComponentInstance) -> bool {
    comp.type_@ == "core:InputPin"@ || comp.type_@ == "core:OutputPin"@
}

/// The lines of the pins among the first `k` components that became a gate.
pub open spec fn lines_of(
    comps: Seq<ComponentInstance>,
    index: Map<Seq<char>, usize>,
    gates: Map<usize, usize>,
    s: SimView,
    k: nat,
) -> Seq<PinLineView>
    decreases k,
{
    if k == 0 {
        Seq::empty()
    } else {
        let before = lines_of(comps, index, gates, s, (k - 1) as nat);
        match gate_of(comps[k - 1], index, gates) {
            Some(g) => if is_pin(comps[k - 1]) {
                before.push(line_of(comps[k - 1], s.gates[g as int].read("get"@)))
            } else {
                before
            },
            None => before,
        }
    }
}

/// The contents of a list of lines.
pub open spec fn pin_lines(list: Seq<PinLine>) -> Seq<PinLineView> {
    Seq::new(list.len(), |i: int| list[i]@)
}

fn render_bits(bits: &Vec<Bit>) -> (r: String)
    ensures
        r@ == bits_shown(bits@),
{
    let mut out: String = String::new();
    assert(out@ =~= Seq::empty());
    for i in 0..bits.len()
        invariant
            out@ == bits_shown(bits@).take(i as int),
    {
        out.push(bit_char(bits[i]));
        assert(out@ =~= bits_shown(bits@).take(i + 1));
    }
    assert(out@ =~= bits_shown(bits@));
    out
}

fn render(comp: &ComponentInstance, outcome: &Result<Value, ReadoutError>) -> (r: PinLine)
    ensures
        r@ == line_of(*comp, plugin_abi::readout_outcome(*outcome)),
{
    let mut out: String = "  ".to_owned();
    out.append(comp.id.as_str());
    out.append(" (");
    out.append(comp.type_.as_str());
    out.append(")");
    assert(out@ == heading(*comp));
    match outcome {
        Ok(v) => {
            out.append(" = ");
            match v {
                Value::Bits(bits) => {
                    out.append(render_bits(bits).as_str());
                },
                _ => {
                    out.append(v.to_text().as_str());
                },
            }
            PinLine::Shown(out)
        },
        Err(e) => {
            out.append(": read failed: ");
            out.append(e.to_text().as_str());
            PinLine::Failed(out)
        },
    }
}

/// Reads all pins of a circuit. `index` says which node each component is, and `gates` which
/// gate each node became.
pub fn pin_report(
    circuit: &Circuit,
    index: &NameMap<usize>,
    gates: &HashMap<usize, usize>,
    sim: &Simulation,
) -> (r: Vec<PinLine>)
    requires
        sim.wf(),
        forall|n: usize| #[trigger]
            gates@.contains_key(n) ==> gates@[n] < sim@.gates.len(),
    ensures
        pin_lines(r@) == lines_of(
            circuit.components@,
            index@,
            gates@,
            sim@,
            circuit.components@.len(),
        ),
{
    broadcast use vstd::std_specs::hash::group_hash_axioms;

    let mut r: Vec<PinLine> = Vec::new();
    assert(pin_lines(r@) =~= Seq::empty());
    for k in 0..circuit.components.len()
        invariant
            sim.wf(),
            forall|n: usize| #[trigger]
                gates@.contains_key(n) ==> gates@[n] < sim@.gates.len(),
            pin_lines(r@) == lines_of(circuit.components@, index@, gates@, sim@, k as nat),
    {
        let comp: &ComponentInstance = &circuit.components[k];
        let ghost before = r@;
        let t: &str = comp.type_.as_str();
        if text::same(t, "core:InputPin") || text::same(t, "core:OutputPin") {
            let gate: Option<&usize> = match index.get(comp.id.as_str()) {
                Some(n) => gates.get(n),
                None => None,
            };
            match gate {
                Some(g) => {
                    let outcome: Result<Value, ReadoutError> = sim.read(*g, "get");
                    let line: PinLine = render(comp, &outcome);
                    let ghost shown = line@;
                    r.push(line);
                    assert(pin_lines(r@) =~= pin_lines(before).push(shown));
                },
                None => {},
            }
        }
    }
    r
}

/// Why a project has no report.
#[derive(Debug, Clone, PartialEq, Eq)]
pub enum RunError {
    Compile(CompileError),
    Flatten(NetlistError),
}

/// The first circuit with a name, from `k` on.
pub open spec fn first_named(circuits: Seq<Circuit>, name: Seq<char>, k: int) -> Option<int>
    decreases circuits.len() - k,
{
    if k < 0 || k >= circuits.len() {
        None
    } else if circuits[k].name@ == name {
        Some(k)
    } else {
        first_named(circuits, name, k + 1)
    }
}

proof fn first_before_last(circuits: Seq<Circuit>, name: Seq<char>, k: nat)
    requires
        k <= circuits.len(),
        compile::last_named(circuits, name, k) is Some,
    ensures
        exists|i: int| 0 <= i < k && (#[trigger] circuits[i]).name@ == name,
    decreases k,
{
    if circuits[k - 1].name@ != name {
        first_before_last(circuits, name, (k - 1) as nat);
    }
}

fn first_circuit<'a>(circuits: &'a Vec<Circuit>, name: &str) -> (r: &'a Circuit)
    requires
        exists|i: int| 0 <= i < circuits@.len() && (#[trigger] circuits@[i]).name@ == name@,
    ensures
        first_named(circuits@, name@, 0) is Some,
        *r == circuits@[first_named(circuits@, name@, 0)->0],
{
    let mut k: usize = 0;
    let ghost at = choose|i: int|
        0 <= i < circuits@.len() && (#[trigger] circuits@[i]).name@ == name@;
    while !text::same(circuits[k].name.as_str(), name)
        invariant
            k <= at < circuits.len(),
            circuits@[at].name@ == name@,
            first_named(circuits@, name@, 0) == first_named(circuits@, name@, k as int),
        decreases at - k,
    {
        k = k + 1;
    }
    &circuits[k]
}

/// The library is what the project compiles to, `e` its main circuit laid out as the netlist,
/// and `s` a state in which a simulation of the netlist starts.
pub open spec fn is_run(
    project: ProjectFile,
    lib: Map<Seq<char>, CircuitTemplate>,
    e: Elaborated,
    netlist: Netlist,
    s: SimView,
) -> bool {
    &&& compile::is_library(project.circuits@, project.circuits@.len(), lib)
    &&& netlist::elaborate(lib, project.main_circuit@, Seq::empty(), 0, true) == Ok::<
        Elaborated,
        NetlistErrorView,
    >(e)
    &&& netlist.is_wired(e.gates, e.wires)
    &&& netlist.starts_as(s)
}

/// The library is what the project compiles to, and its main circuit cannot be laid out.
pub open spec fn is_unrunnable(
    project: ProjectFile,
    lib: Map<Seq<char>, CircuitTemplate>,
    err: NetlistErrorView,
) -> bool {
    &&& compile::is_library(project.circuits@, project.circuits@.len(), lib)
    &&& netlist::elaborate(lib, project.main_circuit@, Seq::empty(), 0, true) == Err::<
        Elaborated,
        NetlistErrorView,
    >(err)
}

/// Compiles a project, simulates its main circuit until nothing is pending, and reads the
/// circuit's pins.
pub fn run_project(project: &ProjectFile) -> (r: Result<Vec<PinLine>, RunError>)
    ensures
        match (r, compile::project_error(project.circuits@, project.circuits@.len())) {
            (Err(RunError::Compile(x)), Some(want)) => x@ == want,
            (Err(RunError::Flatten(x)), None) => exists|lib: Map<Seq<char>, CircuitTemplate>|
                #[trigger] is_unrunnable(*project, lib, x@),
            (Ok(lines), None) => exists|
                lib: Map<Seq<char>, CircuitTemplate>,
                e: Elaborated,
                netlist: Netlist,
                s: SimView,
            | #[trigger]
                is_run(*project, lib, e, netlist, s) && {
                    let at = first_named(project.circuits@, project.main_circuit@, 0);
                    let comps = project.circuits@[at->0].components@;
                    at is Some && pin_lines(lines@) == lines_of(
                        comps,
                        lib[project.main_circuit@].component_index@,
                        netlist::leaf_map(e.places),
                        s.quiesced(),
                        comps.len(),
                    )
                },
            _ => false,
        },
{
    let library: Library = match compile::compile(project) {
        Ok(library) => library,
        Err(e) => {
            return Err(RunError::Compile(e));
        },
    };
    let ghost lib = library@;
    let ghost main = project.main_circuit@;
    proof {
        library.finite();
        assert(netlist::can_elaborate(lib, main, Seq::empty(), true));
    }
    let (netlist, gates): (Netlist, HashMap<usize, usize>) = match netlist::flatten_with_entry_map(
        project.main_circuit.as_str(),
        &library,
    ) {
        Ok(n) => n,
        Err(x) => {
            assert(is_unrunnable(*project, lib, x@));
            return Err(RunError::Flatten(x));
        },
    };
    let ghost e = netlist::elaborate(lib, main, Seq::empty(), 0, true)->Ok_0;
    let ghost started = netlist;
    proof {
        sim::elaborated_can_be_simulated(lib, main, netlist, e);
        assert(lib.contains_key(main));
        first_before_last(project.circuits@, main, project.circuits@.len());
        let t = lib[main];
        netlist::leaves_become_gates(lib, t, seq![main], t.nodes@.len(), 0);
        assert(Seq::<Seq<char>>::empty().push(main) =~= seq![main]);
        assert(netlist::gate_views(netlist.gates@).len() == netlist.gates.len());
    }
    let mut sim: Simulation = Simulation::new(netlist);
    let ghost s = sim@;
    sim.run_to_quiescence();
    proof {
        let n = choose|n: nat| sim::ran(s, sim@, n);
        sim::steps_keep_the_circuit(s, n);
    }
    let circuit: &Circuit = first_circuit(&project.circuits, project.main_circuit.as_str());
    let lines: Vec<PinLine> = match library.get(project.main_circuit.as_str()) {
        Some(template) => pin_report(circuit, &template.component_index, &gates, &sim),
        None => Vec::new(),
    };
    assert(is_run(*project, lib, e, started, s));
    Ok(lines)
}

/// A pin's line: its id and type, an equals sign, and one character for each bit that it reads,
/// the lowest bit first.
pub proof fn pins_are_shown(comp: ComponentInstance, bits: Seq<Bit>, i: int, name: Seq<char>)
    requires
        0 <= i < bits.len(),
    ensures
        line_of(comp, Ok(ValueView::Bits(bits))) matches PinLineView::Shown(line) && ({
            let start = "  "@ + comp.id@ + " ("@ + comp.type_@ + ")"@ + " = "@;
            &&& line.len() == start.len() + bits.len()
            &&& line.take(start.len() as int) == start
            &&& line[start.len() + i] == (if bits[i] == Bit::Zero {
                '0'
            } else if bits[i] == Bit::One {
                '1'
            } else if bits[i] == Bit::Unknown {
                'x'
            } else {
                'E'
            })
        }),
        line_of(comp, Err(name)) == PinLineView::Failed(
            "  "@ + comp.id@ + " ("@ + comp.type_@ + ")"@ + ": read failed: "@ + (
            "UnknownReadout("@ + crate::text::quoted(name) + ")"@),
        ),
{
    let start = "  "@ + comp.id@ + " ("@ + comp.type_@ + ")"@ + " = "@;
    let line = start + bits_shown(bits);
    assert(line.take(start.len() as int) =~= start);
}

/// The lines are those of the input and output pins, in the order of the components, each with
/// what its own gate reads: another component adds none, and a pin that became no gate neither.
pub proof fn lines_follow_the_pins(
    comps: Seq<ComponentInstance>,
    index: Map<Seq<char>, usize>,
    gates: Map<usize, usize>,
    s: SimView,
    k: nat,
)
    ensures
        ({
            let comp = comps[k as int];
            let before = lines_of(comps, index, gates, s, k);
            let after = lines_of(comps, index, gates, s, k + 1);
            let pin = comp.type_@ == "core:InputPin"@ || comp.type_@ == "core:OutputPin"@;
            let placed = index.contains_key(comp.id@) && gates.contains_key(index[comp.id@]);
            let g = gates[index[comp.id@]];
            &&& lines_of(comps, index, gates, s, 0).len() == 0
            &&& !(pin && placed) ==> after == before
            &&& pin && placed ==> after == before + seq![
                line_of(comp, s.gates[g as int].read("get"@)),
            ]
        }),
{
    let comp = comps[k as int];
    let before = lines_of(comps, index, gates, s, k);
    let line = line_of(comp, s.gates[gates[index[comp.id@]] as int].read("get"@));
    assert(before.push(line) =~= before + seq![line]);
}

/// A circuit is looked up from the front: the first one of its name is found.
pub proof fn the_first_circuit_of_a_name_is_found(circuits: Seq<Circuit>, name: Seq<char>, k: int)
    requires
        0 <= k <= circuits.len(),
    ensures
        match first_named(circuits, name, k) {
            Some(i) => k <= i < circuits.len() && circuits[i].name@ == name && forall|j: int|
                k <= j < i ==> (#[trigger] circuits[j]).name@ != name,
            None => forall|j: int|
                k <= j < circuits.len() ==> (#[trigger] circuits[j]).name@ != name,
        },
    decreases circuits.len() - k,
{
    if k < circuits.len() && circuits[k].name@ != name {
        the_first_circuit_of_a_name_is_found(circuits, name, k + 1);
    }
}

} // verus!
