use engine::compile::{compile, CompileError};
use engine::file_format::{AttrValue, Circuit, ComponentInstance, Facing, ProjectFile, WireSegment};
use engine::name_map::NameMap;
use engine::netlist::flatten;
use engine::plugin_abi::{Bit, Value};
use engine::sim::Simulation;

fn comp(id: &str, type_: &str, x: i32, y: i32) -> ComponentInstance {
    ComponentInstance {
        id: id.to_string(),
        type_: type_.to_string(),
        x,
        y,
        facing: Facing::East,
        attrs: NameMap::new(),
    }
}

fn wire(id: &str, from: [i32; 2], to: [i32; 2]) -> WireSegment {
    WireSegment { id: id.to_string(), from, to }
}

fn get_bit(sim: &Simulation, gate: usize) -> Bit {
    match sim.read(gate, "get").unwrap() {
        Value::Bits(bits) => bits[0],
        other => panic!("unexpected readout {other:?}"),
    }
}

fn single_circuit_project(circuit: Circuit) -> ProjectFile {
    ProjectFile { schema_version: 1, main_circuit: circuit.name.clone(), circuits: vec![circuit] }
}

#[test]
fn compiles_and_simulates_a_multiplexer() {
    let project = single_circuit_project(Circuit {
        name: "main".to_string(),
        components: vec![
            comp("a", "core:InputPin", 0, 0),
            comp("b", "core:InputPin", 0, 2),
            comp("mux", "core:Multiplexer", 0, 0),
            comp("sel", "core:InputPin", 1, -1),
            comp("out", "core:OutputPin", 3, 0),
        ],
        wires: vec![
            wire("w1", [0, 0], [0, 0]),
            wire("w2", [0, 2], [0, 2]),
            wire("w3", [1, -1], [1, -1]),
            wire("w4", [3, 0], [3, 0]),
        ],
        annotations: vec![],
    });
    let library = compile(&project).unwrap();
    let netlist = flatten(&project.main_circuit, &library).unwrap();
    let mut sim = Simulation::new(netlist);

    sim.invoke(0, "on", None).unwrap();
    sim.run_to_quiescence();
    assert_eq!(get_bit(&sim, 4), Bit::One, "select=0 (default) -> a");

    sim.invoke(3, "on", None).unwrap();
    sim.run_to_quiescence();
    assert_eq!(get_bit(&sim, 4), Bit::Zero, "select=1 -> b (still 0)");
}

#[test]
fn compiles_and_simulates_a_demultiplexer() {
    let project = single_circuit_project(Circuit {
        name: "main".to_string(),
        components: vec![
            comp("sel", "core:InputPin", 0, -1),
            comp("d", "core:InputPin", 0, 0),
            comp("dmx", "core:Demultiplexer", 0, 0),
            comp("o0", "core:OutputPin", 3, 0),
            comp("o1", "core:OutputPin", 3, 2),
        ],
        wires: vec![
            wire("w1", [0, -1], [0, -1]),
            wire("w2", [0, 0], [0, 0]),
            wire("w3", [3, 0], [3, 0]),
            wire("w4", [3, 2], [3, 2]),
        ],
        annotations: vec![],
    });
    let library = compile(&project).unwrap();
    let netlist = flatten(&project.main_circuit, &library).unwrap();
    let mut sim = Simulation::new(netlist);

    sim.invoke(1, "on", None).unwrap();
    sim.run_to_quiescence();
    assert_eq!(get_bit(&sim, 3), Bit::One, "select=0 (default) -> o0 gets data");
    assert_eq!(get_bit(&sim, 4), Bit::Zero, "o1 idles at Zero (default disabled_zero option)");

    sim.invoke(0, "on", None).unwrap();
    sim.run_to_quiescence();
    assert_eq!(get_bit(&sim, 3), Bit::Zero, "o0 now idles");
    assert_eq!(get_bit(&sim, 4), Bit::One, "o1 gets data");
}

#[test]
fn rejects_select_width_above_five() {
    let mut attrs = NameMap::new();
    attrs.insert("select".to_string(), AttrValue::Int(6));
    let project = single_circuit_project(Circuit {
        name: "main".to_string(),
        components: vec![ComponentInstance { attrs, ..comp("mux", "core:Multiplexer", 0, 0) }],
        wires: vec![],
        annotations: vec![],
    });
    assert_eq!(
        compile(&project).unwrap_err(),
        CompileError::InvalidSelectWidth { circuit: "main".to_string(), id: "mux".to_string(), value: 6 }
    );
}

#[test]
fn rejects_unknown_disabled_option() {
    let mut attrs = NameMap::new();
    attrs.insert("disabled".to_string(), AttrValue::Str("float".to_string()));
    let project = single_circuit_project(Circuit {
        name: "main".to_string(),
        components: vec![ComponentInstance { attrs, ..comp("mux", "core:Multiplexer", 0, 0) }],
        wires: vec![],
        annotations: vec![],
    });
    assert_eq!(
        compile(&project).unwrap_err(),
        CompileError::InvalidDisabledOption { circuit: "main".to_string(), id: "mux".to_string(), value: "float".to_string() }
    );
}

#[test]
fn multiplexer_without_enable_attribute_compiles_with_fewer_pins() {
    let mut attrs = NameMap::new();
    attrs.insert("enable".to_string(), AttrValue::Bool(false));
    let project = single_circuit_project(Circuit {
        name: "main".to_string(),
        components: vec![
            comp("a", "core:InputPin", 0, 0),
            comp("b", "core:InputPin", 0, 2),
            ComponentInstance { attrs, ..comp("mux", "core:Multiplexer", 0, 0) },
            comp("sel", "core:InputPin", 1, -1),
            comp("out", "core:OutputPin", 3, 0),
        ],
        wires: vec![
            wire("w1", [0, 0], [0, 0]),
            wire("w2", [0, 2], [0, 2]),
            wire("w3", [1, -1], [1, -1]),
            wire("w4", [3, 0], [3, 0]),
        ],
        annotations: vec![],
    });
    let library = compile(&project).unwrap();
    let netlist = flatten(&project.main_circuit, &library).unwrap();
    let mut sim = Simulation::new(netlist);

    sim.invoke(0, "on", None).unwrap();
    sim.run_to_quiescence();
    assert_eq!(get_bit(&sim, 4), Bit::One, "no enable pin at all -> always active, still selects a");
}

#[test]
fn compiles_and_simulates_a_decoder() {
    let project = single_circuit_project(Circuit {
        name: "main".to_string(),
        components: vec![
            comp("sel", "core:InputPin", 0, -1),
            comp("dec", "core:Decoder", 0, 0),
            comp("o0", "core:OutputPin", 3, 0),
            comp("o1", "core:OutputPin", 3, 2),
        ],
        wires: vec![wire("w1", [0, -1], [0, -1]), wire("w2", [3, 0], [3, 0]), wire("w3", [3, 2], [3, 2])],
        annotations: vec![],
    });
    let library = compile(&project).unwrap();
    let netlist = flatten(&project.main_circuit, &library).unwrap();
    let mut sim = Simulation::new(netlist);
    sim.run_to_quiescence();
    assert_eq!(get_bit(&sim, 2), Bit::One, "select=0 (default) -> o0 asserted");
    assert_eq!(get_bit(&sim, 3), Bit::Zero, "o1 idles at Zero (default disabled/tristate options)");

    sim.invoke(0, "on", None).unwrap();
    sim.run_to_quiescence();
    assert_eq!(get_bit(&sim, 2), Bit::Zero, "o0 now idles");
    assert_eq!(get_bit(&sim, 3), Bit::One, "o1 asserted");
}

#[test]
fn compiles_and_simulates_a_priority_encoder() {
    let project = single_circuit_project(Circuit {
        name: "main".to_string(),
        components: vec![
            comp("i0", "core:InputPin", 0, 0),
            comp("i1", "core:InputPin", 0, 2),
            comp("en", "core:InputPin", 0, 4),
            comp("pe", "core:PriorityEncoder", 0, 0),
            comp("out", "core:OutputPin", 3, 0),
            comp("eout", "core:OutputPin", 3, 2),
            comp("gs", "core:OutputPin", 3, 4),
        ],
        wires: vec![
            wire("w1", [0, 0], [0, 0]),
            wire("w2", [0, 2], [0, 2]),
            wire("w3", [0, 4], [0, 4]),
            wire("w4", [3, 0], [3, 0]),
            wire("w5", [3, 2], [3, 2]),
            wire("w6", [3, 4], [3, 4]),
        ],
        annotations: vec![],
    });
    let library = compile(&project).unwrap();
    let netlist = flatten(&project.main_circuit, &library).unwrap();
    let mut sim = Simulation::new(netlist);

    sim.invoke(2, "on", None).unwrap();
    sim.invoke(1, "on", None).unwrap();
    sim.run_to_quiescence();
    assert_eq!(get_bit(&sim, 4), Bit::One, "out=1");
    assert_eq!(get_bit(&sim, 5), Bit::Zero, "enable_out=0 (found something)");
    assert_eq!(get_bit(&sim, 6), Bit::One, "group_signal=1");
}
