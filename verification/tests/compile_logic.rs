use engine::compile::{compile, CompileError};
use engine::file_format::{AttrValue, Circuit, ComponentInstance, Facing, ProjectFile, WireSegment};
use engine::name_map::NameMap;
use engine::netlist::flatten;
use engine::plugin_abi::{Bit, Value};
use engine::sim::Simulation;

fn comp(id: &str, type_: &str, x: i32, y: i32) -> ComponentInstance {
    ComponentInstance {
        id: id.to_string(),
        type_: type_.to_string(),
        x,
        y,
        facing: Facing::East,
        attrs: NameMap::new(),
    }
}

fn wire(id: &str, from: [i32; 2], to: [i32; 2]) -> WireSegment {
    WireSegment { id: id.to_string(), from, to }
}

fn get_bit(sim: &Simulation, gate: usize) -> Bit {
    match sim.read(gate, "get").unwrap() {
        Value::Bits(bits) => bits[0],
        other => panic!("unexpected readout {other:?}"),
    }
}

fn get_bits(sim: &Simulation, gate: usize) -> Vec<Bit> {
    match sim.read(gate, "get").unwrap() {
        Value::Bits(bits) => bits,
        other => panic!("unexpected readout {other:?}"),
    }
}

fn single_circuit_project(circuit: Circuit) -> ProjectFile {
    ProjectFile { schema_version: 1, main_circuit: circuit.name.clone(), circuits: vec![circuit] }
}

fn and_project() -> ProjectFile {
    single_circuit_project(Circuit {
        name: "main".to_string(),
        components: vec![
            comp("a", "core:InputPin", 0, -1),
            comp("b", "core:InputPin", 0, 1),
            comp("g", "core:AndGate", 0, 0),
            comp("out", "core:OutputPin", 3, 0),
        ],
        wires: vec![
            wire("w1", [0, -1], [0, -1]),
            wire("w2", [0, 1], [0, 1]),
            wire("w3", [3, 0], [3, 0]),
        ],
        annotations: vec![],
    })
}

#[test]
fn logic_compiles_and_simulates_a_simple_json_circuit() {
    let project = and_project();
    let library = compile(&project).unwrap();
    let netlist = flatten(&project.main_circuit, &library).unwrap();
    let mut sim = Simulation::new(netlist);

    sim.invoke(0, "on", None).unwrap();
    sim.invoke(1, "on", None).unwrap();
    sim.run_to_quiescence();
    assert_eq!(get_bit(&sim, 3), Bit::One);

    sim.invoke(1, "off", None).unwrap();
    sim.run_to_quiescence();
    assert_eq!(get_bit(&sim, 3), Bit::Zero);
}

#[test]
fn logic_compiles_and_simulates_a_multi_bit_bus() {
    let mut and_attrs = NameMap::new();
    and_attrs.insert("width".to_string(), AttrValue::Int(4));
    let pin_attrs = || {
        let mut a = NameMap::new();
        a.insert("width".to_string(), AttrValue::Int(4));
        a
    };
    let project = single_circuit_project(Circuit {
        name: "main".to_string(),
        components: vec![
            ComponentInstance { attrs: pin_attrs(), ..comp("a", "core:InputPin", 0, -1) },
            ComponentInstance { attrs: pin_attrs(), ..comp("b", "core:InputPin", 0, 1) },
            ComponentInstance { attrs: and_attrs, ..comp("g", "core:AndGate", 0, 0) },
            ComponentInstance { attrs: pin_attrs(), ..comp("out", "core:OutputPin", 3, 0) },
        ],
        wires: vec![
            wire("w1", [0, -1], [0, -1]),
            wire("w2", [0, 1], [0, 1]),
            wire("w3", [3, 0], [3, 0]),
        ],
        annotations: vec![],
    });
    let library = compile(&project).unwrap();
    let netlist = flatten(&project.main_circuit, &library).unwrap();
    let mut sim = Simulation::new(netlist);

    sim.invoke(0, "set", Some(Value::Int(0b1100))).unwrap();
    sim.invoke(1, "set", Some(Value::Int(0b1010))).unwrap();
    sim.run_to_quiescence();

    assert_eq!(get_bits(&sim, 3), vec![Bit::Zero, Bit::Zero, Bit::Zero, Bit::One]);
}

#[test]
fn logic_compiles_a_gate_with_more_than_two_inputs() {
    let mut or_attrs = NameMap::new();
    or_attrs.insert("inputs".to_string(), AttrValue::Int(3));
    let project = single_circuit_project(Circuit {
        name: "main".to_string(),
        components: vec![
            comp("a", "core:InputPin", 0, -2),
            comp("b", "core:InputPin", 0, 0),
            comp("c", "core:InputPin", 0, 2),
            ComponentInstance { attrs: or_attrs, ..comp("g", "core:OrGate", 0, 0) },
            comp("out", "core:OutputPin", 3, 0),
        ],
        wires: vec![
            wire("w1", [0, -2], [0, -2]),
            wire("w2", [0, 0], [0, 0]),
            wire("w3", [0, 2], [0, 2]),
            wire("w4", [3, 0], [3, 0]),
        ],
        annotations: vec![],
    });
    let library = compile(&project).unwrap();
    let netlist = flatten(&project.main_circuit, &library).unwrap();
    let mut sim = Simulation::new(netlist);
    sim.run_to_quiescence();
    assert_eq!(get_bit(&sim, 4), Bit::Zero, "all three inputs off");

    sim.invoke(2, "on", None).unwrap();
    sim.run_to_quiescence();
    assert_eq!(get_bit(&sim, 4), Bit::One);
}

#[test]
fn logic_rejects_fewer_than_two_inputs_on_a_gate() {
    let mut attrs = NameMap::new();
    attrs.insert("inputs".to_string(), AttrValue::Int(1));
    let project = single_circuit_project(Circuit {
        name: "main".to_string(),
        components: vec![ComponentInstance { attrs, ..comp("g", "core:AndGate", 0, 0) }],
        wires: vec![],
        annotations: vec![],
    });
    assert_eq!(
        compile(&project).unwrap_err(),
        CompileError::InvalidInputCount { circuit: "main".to_string(), id: "g".to_string(), value: 1 }
    );
}

#[test]
fn compiles_and_simulates_a_controlled_buffer() {
    let mut w4 = NameMap::new();
    w4.insert("width".to_string(), AttrValue::Int(4));
    let project = single_circuit_project(Circuit {
        name: "main".to_string(),
        components: vec![
            ComponentInstance { attrs: w4.clone(), ..comp("data", "core:InputPin", 0, 0) },
            comp("en", "core:InputPin", 1, -2),
            ComponentInstance { attrs: w4.clone(), ..comp("cb", "core:ControlledBuffer", 0, 0) },
            ComponentInstance { attrs: w4, ..comp("out", "core:OutputPin", 2, 0) },
        ],
        wires: vec![wire("w1", [0, 0], [0, 0]), wire("w2", [1, -2], [1, -2]), wire("w3", [2, 0], [2, 0])],
        annotations: vec![],
    });
    let library = compile(&project).unwrap();
    let netlist = flatten(&project.main_circuit, &library).unwrap();
    let mut sim = Simulation::new(netlist);

    sim.invoke(0, "set", Some(Value::Int(0b1010))).unwrap();
    sim.run_to_quiescence();
    assert_eq!(get_bits(&sim, 3), vec![Bit::Unknown; 4], "enable defaults to 0 (InputPin's own default) -> disabled/floating");

    sim.invoke(1, "on", None).unwrap();
    sim.run_to_quiescence();
    assert_eq!(get_bits(&sim, 3), vec![Bit::Zero, Bit::One, Bit::Zero, Bit::One], "enabled -> data passes through");

    sim.invoke(1, "off", None).unwrap();
    sim.run_to_quiescence();
    assert_eq!(get_bits(&sim, 3), vec![Bit::Unknown; 4], "disabled -> floating");
}
