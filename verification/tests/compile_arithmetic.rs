use engine::compile::{compile, CompileError};
use engine::file_format::{AttrValue, Circuit, ComponentInstance, Facing, ProjectFile, WireSegment};
use engine::name_map::NameMap;
use engine::netlist::flatten;
use engine::plugin_abi::{Bit, Value};
use engine::sim::Simulation;

fn comp(id: &str, type_: &str, x: i32, y: i32) -> ComponentInstance {
    ComponentInstance {
        id: id.to_string(),
        type_: type_.to_string(),
        x,
        y,
        facing: Facing::East,
        attrs: NameMap::new(),
    }
}

fn wire(id: &str, from: [i32; 2], to: [i32; 2]) -> WireSegment {
    WireSegment { id: id.to_string(), from, to }
}

fn get_bit(sim: &Simulation, gate: usize) -> Bit {
    match sim.read(gate, "get").unwrap() {
        Value::Bits(bits) => bits[0],
        other => panic!("unexpected readout {other:?}"),
    }
}

fn get_bits(sim: &Simulation, gate: usize) -> Vec<Bit> {
    match sim.read(gate, "get").unwrap() {
        Value::Bits(bits) => bits,
        other => panic!("unexpected readout {other:?}"),
    }
}

fn single_circuit_project(circuit: Circuit) -> ProjectFile {
    ProjectFile { schema_version: 1, main_circuit: circuit.name.clone(), circuits: vec![circuit] }
}

#[test]
fn compiles_and_simulates_an_adder() {
    let mut w4 = NameMap::new();
    w4.insert("width".to_string(), AttrValue::Int(4));
    let project = single_circuit_project(Circuit {
        name: "main".to_string(),
        components: vec![
            ComponentInstance { attrs: w4.clone(), ..comp("a", "core:InputPin", 0, -1) },
            ComponentInstance { attrs: w4.clone(), ..comp("b", "core:InputPin", 0, 1) },
            comp("cin", "core:InputPin", 1, -2),
            ComponentInstance { attrs: w4.clone(), ..comp("add", "core:Adder", 0, 0) },
            ComponentInstance { attrs: w4, ..comp("sum", "core:OutputPin", 3, 0) },
            comp("cout", "core:OutputPin", 1, 2),
        ],
        wires: vec![
            wire("w1", [0, -1], [0, -1]),
            wire("w2", [0, 1], [0, 1]),
            wire("w3", [1, -2], [1, -2]),
            wire("w4", [3, 0], [3, 0]),
            wire("w5", [1, 2], [1, 2]),
        ],
        annotations: vec![],
    });

    let library = compile(&project).unwrap();
    let netlist = flatten(&project.main_circuit, &library).unwrap();
    let mut sim = Simulation::new(netlist);

    sim.invoke(0, "set", Some(Value::Int(0b1100))).unwrap();
    sim.invoke(1, "set", Some(Value::Int(0b0101))).unwrap();
    sim.run_to_quiescence();

    assert_eq!(get_bits(&sim, 4), vec![Bit::One, Bit::Zero, Bit::Zero, Bit::Zero], "sum wraps to 1");
    assert_eq!(get_bit(&sim, 5), Bit::One, "carry out");
}

#[test]
fn compiles_and_simulates_a_subtractor() {
    let mut w4 = NameMap::new();
    w4.insert("width".to_string(), AttrValue::Int(4));
    let project = single_circuit_project(Circuit {
        name: "main".to_string(),
        components: vec![
            ComponentInstance { attrs: w4.clone(), ..comp("a", "core:InputPin", 0, -1) },
            ComponentInstance { attrs: w4.clone(), ..comp("b", "core:InputPin", 0, 1) },
            ComponentInstance { attrs: w4.clone(), ..comp("sub", "core:Subtractor", 0, 0) },
            ComponentInstance { attrs: w4, ..comp("diff", "core:OutputPin", 3, 0) },
            comp("bout", "core:OutputPin", 1, 2),
        ],
        wires: vec![wire("w1", [0, -1], [0, -1]), wire("w2", [0, 1], [0, 1]), wire("w3", [3, 0], [3, 0]), wire("w4", [1, 2], [1, 2])],
        annotations: vec![],
    });

    let library = compile(&project).unwrap();
    let netlist = flatten(&project.main_circuit, &library).unwrap();
    let mut sim = Simulation::new(netlist);

    sim.invoke(0, "set", Some(Value::Int(5))).unwrap();
    sim.invoke(1, "set", Some(Value::Int(3))).unwrap();
    sim.run_to_quiescence();
    assert_eq!(get_bits(&sim, 3), vec![Bit::Zero, Bit::One, Bit::Zero, Bit::Zero], "5 - 3 = 2");
    assert_eq!(get_bit(&sim, 4), Bit::Zero, "no underflow, no borrow out");
}

#[test]
fn comparator_defaults_to_signed_mode() {
    let mut w4 = NameMap::new();
    w4.insert("width".to_string(), AttrValue::Int(4));
    let project = single_circuit_project(Circuit {
        name: "main".to_string(),
        components: vec![
            ComponentInstance { attrs: w4.clone(), ..comp("a", "core:InputPin", 0, -1) },
            ComponentInstance { attrs: w4.clone(), ..comp("b", "core:InputPin", 0, 1) },
            ComponentInstance { attrs: w4, ..comp("cmp", "core:Comparator", 0, 0) },
            comp("gt", "core:OutputPin", 3, -1),
            comp("eq", "core:OutputPin", 3, 0),
            comp("lt", "core:OutputPin", 3, 1),
        ],
        wires: vec![
            wire("w1", [0, -1], [0, -1]),
            wire("w2", [0, 1], [0, 1]),
            wire("w3", [3, -1], [3, -1]),
            wire("w4", [3, 0], [3, 0]),
            wire("w5", [3, 1], [3, 1]),
        ],
        annotations: vec![],
    });

    let library = compile(&project).unwrap();
    let netlist = flatten(&project.main_circuit, &library).unwrap();
    let mut sim = Simulation::new(netlist);

    sim.invoke(0, "set", Some(Value::Int(0b1000))).unwrap();
    sim.invoke(1, "set", Some(Value::Int(0b0001))).unwrap();
    sim.run_to_quiescence();
    assert_eq!(get_bit(&sim, 3), Bit::Zero, "gt");
    assert_eq!(get_bit(&sim, 4), Bit::Zero, "eq");
    assert_eq!(get_bit(&sim, 5), Bit::One, "lt: -8 < 1 under the default signed mode");
}

#[test]
fn rejects_unknown_comparator_mode() {
    let mut attrs = NameMap::new();
    attrs.insert("mode".to_string(), AttrValue::Str("bogus".to_string()));
    let project = single_circuit_project(Circuit {
        name: "main".to_string(),
        components: vec![ComponentInstance { attrs, ..comp("cmp", "core:Comparator", 0, 0) }],
        wires: vec![],
        annotations: vec![],
    });
    assert_eq!(
        compile(&project).unwrap_err(),
        CompileError::InvalidComparatorMode { circuit: "main".to_string(), id: "cmp".to_string(), value: "bogus".to_string() }
    );
}
