use engine::compile::{compile, CompileError};
use engine::file_format::{AttrValue, Circuit, ComponentInstance, Facing, ProjectFile, WireSegment};
use engine::name_map::NameMap;
use engine::netlist::flatten;
use engine::plugin_abi::{Bit, Value};
use engine::sim::Simulation;

fn comp(id: &str, type_: &str, x: i32, y: i32) -> ComponentInstance {
    ComponentInstance {
        id: id.to_string(),
        type_: type_.to_string(),
        x,
        y,
        facing: Facing::East,
        attrs: NameMap::new(),
    }
}

fn wire(id: &str, from: [i32; 2], to: [i32; 2]) -> WireSegment {
    WireSegment { id: id.to_string(), from, to }
}

fn single_circuit_project(circuit: Circuit) -> ProjectFile {
    ProjectFile { schema_version: 1, main_circuit: circuit.name.clone(), circuits: vec![circuit] }
}

#[test]
fn compiles_and_simulates_a_column_mode_dot_matrix() {
    let mut attrs = NameMap::new();
    attrs.insert("matrixrows".to_string(), AttrValue::Int(7));
    attrs.insert("matrixcols".to_string(), AttrValue::Int(3));
    attrs.insert("inputtype".to_string(), AttrValue::Str("column".to_string()));
    let w7 = |id: &str, x: i32, y: i32| {
        let mut a = NameMap::new();
        a.insert("width".to_string(), AttrValue::Int(7));
        ComponentInstance { attrs: a, ..comp(id, "core:InputPin", x, y) }
    };

    let project = single_circuit_project(Circuit {
        name: "main".to_string(),
        components: vec![
            w7("c0", 0, 0),
            w7("c1", 0, 2),
            w7("c2", 0, 4),
            ComponentInstance { attrs, ..comp("m", "core:DotMatrix", 0, 0) },
        ],
        wires: vec![wire("w0", [0, 0], [0, 0]), wire("w1", [0, 2], [0, 2]), wire("w2", [0, 4], [0, 4])],
        annotations: vec![],
    });

    let library = compile(&project).unwrap();
    let netlist = flatten(&project.main_circuit, &library).unwrap();
    let mut sim = Simulation::new(netlist);

    sim.invoke(0, "set", Some(Value::Int(0b1))).unwrap();
    sim.run_to_quiescence();

    let Value::Bits(grid) = sim.read(3, "get").unwrap() else { panic!("expected Bits") };
    assert_eq!(grid.len(), 21);
    assert_eq!(grid[6 * 3], Bit::One, "row 6 (bottom), col 0 — LSB of column 0's input");
}

#[test]
fn rejects_dot_matrix_size_above_thirty_two() {
    let mut attrs = NameMap::new();
    attrs.insert("matrixrows".to_string(), AttrValue::Int(33));
    let project = single_circuit_project(Circuit {
        name: "main".to_string(),
        components: vec![ComponentInstance { attrs, ..comp("m", "core:DotMatrix", 0, 0) }],
        wires: vec![],
        annotations: vec![],
    });
    assert_eq!(
        compile(&project).unwrap_err(),
        CompileError::InvalidDotMatrixSize { circuit: "main".to_string(), id: "m".to_string(), field: "matrixrows", value: 33 }
    );
}

#[test]
fn rejects_unknown_dot_matrix_input_type() {
    let mut attrs = NameMap::new();
    attrs.insert("inputtype".to_string(), AttrValue::Str("diagonal".to_string()));
    let project = single_circuit_project(Circuit {
        name: "main".to_string(),
        components: vec![ComponentInstance { attrs, ..comp("m", "core:DotMatrix", 0, 0) }],
        wires: vec![],
        annotations: vec![],
    });
    assert_eq!(
        compile(&project).unwrap_err(),
        CompileError::InvalidDotMatrixInput { circuit: "main".to_string(), id: "m".to_string(), value: "diagonal".to_string() }
    );
}

#[test]
fn compiles_and_simulates_a_tty_receiving_a_character() {
    let mut w1 = NameMap::new();
    w1.insert("width".to_string(), AttrValue::Int(1));
    let mut w7 = NameMap::new();
    w7.insert("width".to_string(), AttrValue::Int(7));

    let project = single_circuit_project(Circuit {
        name: "main".to_string(),
        components: vec![
            ComponentInstance { attrs: w1.clone(), ..comp("clr", "core:InputPin", 0, 0) },
            ComponentInstance { attrs: w1.clone(), ..comp("ck", "core:InputPin", 1, 0) },
            ComponentInstance { attrs: w1, ..comp("we", "core:InputPin", 2, 0) },
            ComponentInstance { attrs: w7, ..comp("in", "core:InputPin", 3, 0) },
            comp("tty", "core:Tty", 0, 0),
        ],
        wires: vec![wire("w0", [0, 0], [0, 0]), wire("w1", [1, 0], [1, 0]), wire("w2", [2, 0], [2, 0]), wire("w3", [3, 0], [3, 0])],
        annotations: vec![],
    });

    let library = compile(&project).unwrap();
    let netlist = flatten(&project.main_circuit, &library).unwrap();
    let mut sim = Simulation::new(netlist);

    sim.invoke(2, "on", None).unwrap();
    sim.invoke(3, "set", Some(Value::Int('A' as i64))).unwrap();
    sim.run_to_quiescence();
    sim.invoke(1, "on", None).unwrap();
    sim.run_to_quiescence();

    assert_eq!(sim.read(4, "row0").unwrap(), Value::Bits(vec![Bit::One, Bit::Zero, Bit::Zero, Bit::Zero, Bit::Zero, Bit::Zero, Bit::One]));
}

#[test]
fn compiles_and_simulates_a_keyboard_key_reaching_the_output_pins() {
    let mut w1 = NameMap::new();
    w1.insert("width".to_string(), AttrValue::Int(1));
    let mut w7 = NameMap::new();
    w7.insert("width".to_string(), AttrValue::Int(7));

    let project = single_circuit_project(Circuit {
        name: "main".to_string(),
        components: vec![
            ComponentInstance { attrs: w1.clone(), ..comp("clr", "core:InputPin", 0, 0) },
            ComponentInstance { attrs: w1.clone(), ..comp("ck", "core:InputPin", 1, 0) },
            ComponentInstance { attrs: w1.clone(), ..comp("re", "core:InputPin", 2, 0) },
            comp("kb", "core:Keyboard", 0, 0),
            ComponentInstance { attrs: w1, ..comp("avl", "core:OutputPin", 3, 0) },
            ComponentInstance { attrs: w7, ..comp("out", "core:OutputPin", 4, 0) },
        ],
        wires: vec![wire("w0", [0, 0], [0, 0]), wire("w1", [1, 0], [1, 0]), wire("w2", [2, 0], [2, 0])],
        annotations: vec![],
    });

    let library = compile(&project).unwrap();
    let netlist = flatten(&project.main_circuit, &library).unwrap();
    let mut sim = Simulation::new(netlist);

    sim.invoke(3, "key", Some(Value::Int('Z' as i64))).unwrap();
    sim.run_to_quiescence();

    assert_eq!(sim.read(4, "get").unwrap(), Value::Bits(vec![Bit::One]));
    assert_eq!(
        sim.read(5, "get").unwrap(),

        Value::Bits(vec![Bit::Zero, Bit::One, Bit::Zero, Bit::One, Bit::One, Bit::Zero, Bit::One])
    );
}
