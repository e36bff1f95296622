use engine::compile::{compile, CompileError};
use engine::file_format::{AttrValue, Circuit, ComponentInstance, Facing, ProjectFile, WireSegment};
use engine::name_map::NameMap;
use engine::netlist::flatten;
use engine::plugin_abi::{Bit, Value};
use engine::sim::Simulation;
use engine::compile::geometry::SUBCIRCUIT_WIDTH;
use engine::netlist::TemplateNode;

fn comp(id: &str, type_: &str, x: i32, y: i32) -> ComponentInstance {
    ComponentInstance {
        id: id.to_string(),
        type_: type_.to_string(),
        x,
        y,
        facing: Facing::East,
        attrs: NameMap::new(),
    }
}

fn wire(id: &str, from: [i32; 2], to: [i32; 2]) -> WireSegment {
    WireSegment { id: id.to_string(), from, to }
}

fn get_bit(sim: &Simulation, gate: usize) -> Bit {
    match sim.read(gate, "get").unwrap() {
        Value::Bits(bits) => bits[0],
        other => panic!("unexpected readout {other:?}"),
    }
}

fn get_bits(sim: &Simulation, gate: usize) -> Vec<Bit> {
    match sim.read(gate, "get").unwrap() {
        Value::Bits(bits) => bits,
        other => panic!("unexpected readout {other:?}"),
    }
}

fn single_circuit_project(circuit: Circuit) -> ProjectFile {
    ProjectFile { schema_version: 1, main_circuit: circuit.name.clone(), circuits: vec![circuit] }
}

fn and_project() -> ProjectFile {
    single_circuit_project(Circuit {
        name: "main".to_string(),
        components: vec![
            comp("a", "core:InputPin", 0, -1),
            comp("b", "core:InputPin", 0, 1),
            comp("g", "core:AndGate", 0, 0),
            comp("out", "core:OutputPin", 3, 0),
        ],
        wires: vec![
            wire("w1", [0, -1], [0, -1]),
            wire("w2", [0, 1], [0, 1]),
            wire("w3", [3, 0], [3, 0]),
        ],
        annotations: vec![],
    })
}

#[test]
fn compile_compiles_and_simulates_a_simple_json_circuit() {
    let project = and_project();
    let library = compile(&project).unwrap();
    let netlist = flatten(&project.main_circuit, &library).unwrap();
    let mut sim = Simulation::new(netlist);

    sim.invoke(0, "on", None).unwrap();
    sim.invoke(1, "on", None).unwrap();
    sim.run_to_quiescence();
    assert_eq!(get_bit(&sim, 3), Bit::One);

    sim.invoke(1, "off", None).unwrap();
    sim.run_to_quiescence();
    assert_eq!(get_bit(&sim, 3), Bit::Zero);
}

#[test]
fn compiles_a_subcircuit_reference_with_matching_port_count() {
    let and_sub = Circuit {
        name: "and2".to_string(),
        components: vec![
            comp("a", "core:InputPin", 0, -1),
            comp("b", "core:InputPin", 0, 1),
            comp("g", "core:AndGate", 0, 0),
            comp("out", "core:OutputPin", 3, 0),
        ],
        wires: vec![
            wire("w1", [0, -1], [0, -1]),
            wire("w2", [0, 1], [0, 1]),
            wire("w3", [3, 0], [3, 0]),
        ],
        annotations: vec![],
    };

    let main = Circuit {
        name: "main".to_string(),
        components: vec![
            comp("a1", "core:InputPin", 10, 0),
            comp("b1", "core:InputPin", 10, 2),
            comp("inst", "core:circuit/and2", 10, 0),
            comp("out1", "core:OutputPin", 10 + SUBCIRCUIT_WIDTH, 0),
        ],
        wires: vec![
            wire("w1", [10, 0], [10, 0]),
            wire("w2", [10, 2], [10, 2]),
            wire("w3", [10 + SUBCIRCUIT_WIDTH, 0], [10 + SUBCIRCUIT_WIDTH, 0]),
        ],
        annotations: vec![],
    };
    let project = ProjectFile {
        schema_version: 1,
        main_circuit: "main".to_string(),
        circuits: vec![and_sub, main],
    };

    let library = compile(&project).unwrap();
    let netlist = flatten(&project.main_circuit, &library).unwrap();

    assert_eq!(netlist.gates.len(), 7);
    let mut sim = Simulation::new(netlist);

    sim.invoke(0, "on", None).unwrap();
    sim.invoke(1, "on", None).unwrap();
    sim.run_to_quiescence();
    assert_eq!(get_bit(&sim, 6), Bit::One);
}

#[test]
fn rejects_unknown_component_type() {
    let project = single_circuit_project(Circuit {
        name: "main".to_string(),
        components: vec![comp("x", "core:DoesNotExist", 0, 0)],
        wires: vec![],
        annotations: vec![],
    });
    let err = compile(&project).unwrap_err();
    assert_eq!(
        err,
        CompileError::UnknownComponentType {
            circuit: "main".to_string(),
            id: "x".to_string(),
            type_: "core:DoesNotExist".to_string(),
        }
    );
}

#[test]
fn rejects_duplicate_component_ids() {
    let project = single_circuit_project(Circuit {
        name: "main".to_string(),
        components: vec![
            comp("dup", "core:InputPin", 0, 0),
            comp("dup", "core:OutputPin", 5, 0),
        ],
        wires: vec![],
        annotations: vec![],
    });
    let err = compile(&project).unwrap_err();
    assert_eq!(
        err,
        CompileError::DuplicateComponentId {
            circuit: "main".to_string(),
            id: "dup".to_string(),
        }
    );
}

#[test]
fn compile_pull_resistor_reads_pull_attr_matching_logisim_options() {
    let mut attrs = NameMap::new();
    attrs.insert("pull".to_string(), AttrValue::Str("X".to_string()));
    let project = single_circuit_project(Circuit {
        name: "main".to_string(),
        components: vec![ComponentInstance { attrs, ..comp("r", "core:PullResistor", 0, 0) }],
        wires: vec![],
        annotations: vec![],
    });
    let library = compile(&project).unwrap();
    let template = library.get("main").unwrap();
    assert!(matches!(template.nodes[0], TemplateNode::PullResistor(Bit::Error)));
}

#[test]
fn compile_compiles_and_simulates_a_multi_bit_bus() {
    let mut and_attrs = NameMap::new();
    and_attrs.insert("width".to_string(), AttrValue::Int(4));
    let pin_attrs = || {
        let mut a = NameMap::new();
        a.insert("width".to_string(), AttrValue::Int(4));
        a
    };
    let project = single_circuit_project(Circuit {
        name: "main".to_string(),
        components: vec![
            ComponentInstance { attrs: pin_attrs(), ..comp("a", "core:InputPin", 0, -1) },
            ComponentInstance { attrs: pin_attrs(), ..comp("b", "core:InputPin", 0, 1) },
            ComponentInstance { attrs: and_attrs, ..comp("g", "core:AndGate", 0, 0) },
            ComponentInstance { attrs: pin_attrs(), ..comp("out", "core:OutputPin", 3, 0) },
        ],
        wires: vec![
            wire("w1", [0, -1], [0, -1]),
            wire("w2", [0, 1], [0, 1]),
            wire("w3", [3, 0], [3, 0]),
        ],
        annotations: vec![],
    });
    let library = compile(&project).unwrap();
    let netlist = flatten(&project.main_circuit, &library).unwrap();
    let mut sim = Simulation::new(netlist);

    sim.invoke(0, "set", Some(Value::Int(0b1100))).unwrap();
    sim.invoke(1, "set", Some(Value::Int(0b1010))).unwrap();
    sim.run_to_quiescence();

    assert_eq!(get_bits(&sim, 3), vec![Bit::Zero, Bit::Zero, Bit::Zero, Bit::One]);
}

#[test]
fn compile_compiles_a_gate_with_more_than_two_inputs() {
    let mut or_attrs = NameMap::new();
    or_attrs.insert("inputs".to_string(), AttrValue::Int(3));
    let project = single_circuit_project(Circuit {
        name: "main".to_string(),
        components: vec![
            comp("a", "core:InputPin", 0, -2),
            comp("b", "core:InputPin", 0, 0),
            comp("c", "core:InputPin", 0, 2),
            ComponentInstance { attrs: or_attrs, ..comp("g", "core:OrGate", 0, 0) },
            comp("out", "core:OutputPin", 3, 0),
        ],
        wires: vec![
            wire("w1", [0, -2], [0, -2]),
            wire("w2", [0, 0], [0, 0]),
            wire("w3", [0, 2], [0, 2]),
            wire("w4", [3, 0], [3, 0]),
        ],
        annotations: vec![],
    });
    let library = compile(&project).unwrap();
    let netlist = flatten(&project.main_circuit, &library).unwrap();
    let mut sim = Simulation::new(netlist);
    sim.run_to_quiescence();
    assert_eq!(get_bit(&sim, 4), Bit::Zero, "all three inputs off");

    sim.invoke(2, "on", None).unwrap();
    sim.run_to_quiescence();
    assert_eq!(get_bit(&sim, 4), Bit::One);
}

#[test]
fn rejects_width_above_thirty_two() {
    let mut attrs = NameMap::new();
    attrs.insert("width".to_string(), AttrValue::Int(33));
    let project = single_circuit_project(Circuit {
        name: "main".to_string(),
        components: vec![ComponentInstance { attrs, ..comp("p", "core:InputPin", 0, 0) }],
        wires: vec![],
        annotations: vec![],
    });
    assert_eq!(
        compile(&project).unwrap_err(),
        CompileError::InvalidWidth { circuit: "main".to_string(), id: "p".to_string(), value: 33 }
    );
}

#[test]
fn accepts_width_of_exactly_thirty_two() {
    let mut attrs = NameMap::new();
    attrs.insert("width".to_string(), AttrValue::Int(32));
    let project = single_circuit_project(Circuit {
        name: "main".to_string(),
        components: vec![ComponentInstance { attrs, ..comp("p", "core:InputPin", 0, 0) }],
        wires: vec![],
        annotations: vec![],
    });
    compile(&project).unwrap();
}

#[test]
fn compile_rejects_fewer_than_two_inputs_on_a_gate() {
    let mut attrs = NameMap::new();
    attrs.insert("inputs".to_string(), AttrValue::Int(1));
    let project = single_circuit_project(Circuit {
        name: "main".to_string(),
        components: vec![ComponentInstance { attrs, ..comp("g", "core:AndGate", 0, 0) }],
        wires: vec![],
        annotations: vec![],
    });
    assert_eq!(
        compile(&project).unwrap_err(),
        CompileError::InvalidInputCount { circuit: "main".to_string(), id: "g".to_string(), value: 1 }
    );
}

#[test]
fn constant_and_buffer_and_negated_gates_compile_and_simulate() {
    let mut const_attrs = NameMap::new();
    const_attrs.insert("width".to_string(), AttrValue::Int(3));
    const_attrs.insert("value".to_string(), AttrValue::Int(0b101));
    let project = single_circuit_project(Circuit {
        name: "main".to_string(),
        components: vec![
            ComponentInstance { attrs: const_attrs, ..comp("k", "core:Constant", 0, 0) },
            ComponentInstance {
                attrs: { let mut a = NameMap::new(); a.insert("width".to_string(), AttrValue::Int(3)); a },
                ..comp("buf", "core:Buffer", 2, 0)
            },
            ComponentInstance {
                attrs: { let mut a = NameMap::new(); a.insert("width".to_string(), AttrValue::Int(3)); a },
                ..comp("out", "core:OutputPin", 4, 0)
            },
        ],
        wires: vec![wire("w1", [0, 0], [2, 0]), wire("w2", [4, 0], [4, 0])],
        annotations: vec![],
    });
    let library = compile(&project).unwrap();
    let netlist = flatten(&project.main_circuit, &library).unwrap();
    let mut sim = Simulation::new(netlist);
    sim.run_to_quiescence();
    assert_eq!(get_bits(&sim, 2), vec![Bit::One, Bit::Zero, Bit::One]);
}

#[test]
fn compile_rejects_zero_duration_clock() {
    let mut attrs = NameMap::new();
    attrs.insert("highDuration".to_string(), AttrValue::Int(0));
    let project = single_circuit_project(Circuit {
        name: "main".to_string(),
        components: vec![ComponentInstance { attrs, ..comp("clk", "core:Clock", 0, 0) }],
        wires: vec![],
        annotations: vec![],
    });
    assert_eq!(
        compile(&project).unwrap_err(),
        CompileError::InvalidClockDuration {
            circuit: "main".to_string(),
            id: "clk".to_string(),
            field: "highDuration",
            value: 0,
        }
    );
}

#[test]
fn compile_rejects_unknown_trigger_option() {
    let mut attrs = NameMap::new();
    attrs.insert("trigger".to_string(), AttrValue::Str("on_edge".to_string()));
    let project = single_circuit_project(Circuit {
        name: "main".to_string(),
        components: vec![ComponentInstance { attrs, ..comp("r", "core:Register", 0, 0) }],
        wires: vec![],
        annotations: vec![],
    });
    assert_eq!(
        compile(&project).unwrap_err(),
        CompileError::InvalidTrigger { circuit: "main".to_string(), id: "r".to_string(), value: "on_edge".to_string() }
    );
}

#[test]
fn compile_clock_drives_a_register_through_simulation_tick() {
    let mut const_attrs = NameMap::new();
    const_attrs.insert("width".to_string(), AttrValue::Int(3));
    const_attrs.insert("value".to_string(), AttrValue::Int(0b101));
    let mut reg_attrs = NameMap::new();
    reg_attrs.insert("width".to_string(), AttrValue::Int(3));

    let project = single_circuit_project(Circuit {
        name: "main".to_string(),
        components: vec![
            ComponentInstance { attrs: const_attrs, ..comp("d", "core:Constant", 10, 0) },
            ComponentInstance { attrs: reg_attrs, ..comp("r", "core:Register", 10, 0) },
            comp("clk", "core:Clock", 11, 2),
            ComponentInstance {
                attrs: { let mut a = NameMap::new(); a.insert("width".to_string(), AttrValue::Int(3)); a },
                ..comp("out", "core:OutputPin", 14, 0)
            },
        ],
        wires: vec![],
        annotations: vec![],
    });

    let library = compile(&project).unwrap();
    let netlist = flatten(&project.main_circuit, &library).unwrap();
    let mut sim = Simulation::new(netlist);
    sim.run_to_quiescence();
    assert_eq!(get_bits(&sim, 3), vec![Bit::Zero, Bit::Zero, Bit::Zero], "nothing latched before the first tick");

    sim.tick();
    sim.run_to_quiescence();
    assert_eq!(get_bits(&sim, 3), vec![Bit::One, Bit::Zero, Bit::One], "rising edge latches D=0b101");

    sim.tick();
    sim.run_to_quiescence();
    assert_eq!(get_bits(&sim, 3), vec![Bit::One, Bit::Zero, Bit::One], "falling edge must not relatch");
}
