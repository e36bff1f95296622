use engine::compile::compile;
use engine::file_format::{AttrValue, Circuit, ComponentInstance, Facing, ProjectFile, WireSegment};
use engine::name_map::NameMap;
use engine::netlist::flatten;
use engine::plugin_abi::{Bit, Value};
use engine::sim::Simulation;
use engine::netlist::TemplateNode as Node;

fn comp(id: &str, type_: &str, x: i32, y: i32) -> ComponentInstance {
    ComponentInstance {
        id: id.to_string(),
        type_: type_.to_string(),
        x,
        y,
        facing: Facing::East,
        attrs: NameMap::new(),
    }
}

fn wire(id: &str, from: [i32; 2], to: [i32; 2]) -> WireSegment {
    WireSegment { id: id.to_string(), from, to }
}

fn get_bit(sim: &Simulation, gate: usize) -> Bit {
    match sim.read(gate, "get").unwrap() {
        Value::Bits(bits) => bits[0],
        other => panic!("unexpected readout {other:?}"),
    }
}

fn get_bits(sim: &Simulation, gate: usize) -> Vec<Bit> {
    match sim.read(gate, "get").unwrap() {
        Value::Bits(bits) => bits,
        other => panic!("unexpected readout {other:?}"),
    }
}

fn single_circuit_project(circuit: Circuit) -> ProjectFile {
    ProjectFile { schema_version: 1, main_circuit: circuit.name.clone(), circuits: vec![circuit] }
}

#[test]
fn wiring_pull_resistor_reads_pull_attr_matching_logisim_options() {
    let mut attrs = NameMap::new();
    attrs.insert("pull".to_string(), AttrValue::Str("X".to_string()));
    let project = single_circuit_project(Circuit {
        name: "main".to_string(),
        components: vec![ComponentInstance { attrs, ..comp("r", "core:PullResistor", 0, 0) }],
        wires: vec![],
        annotations: vec![],
    });
    let library = compile(&project).unwrap();
    let template = library.get("main").unwrap();
    assert!(matches!(template.nodes[0], Node::PullResistor(Bit::Error)));
}

#[test]
fn constant_compiles_and_simulates_its_fixed_value_through_a_buffer() {
    let mut const_attrs = NameMap::new();
    const_attrs.insert("width".to_string(), AttrValue::Int(3));
    const_attrs.insert("value".to_string(), AttrValue::Int(0b101));
    let project = single_circuit_project(Circuit {
        name: "main".to_string(),
        components: vec![
            ComponentInstance { attrs: const_attrs, ..comp("k", "core:Constant", 0, 0) },
            ComponentInstance {
                attrs: { let mut a = NameMap::new(); a.insert("width".to_string(), AttrValue::Int(3)); a },
                ..comp("buf", "core:Buffer", 2, 0)
            },
            ComponentInstance {
                attrs: { let mut a = NameMap::new(); a.insert("width".to_string(), AttrValue::Int(3)); a },
                ..comp("out", "core:OutputPin", 4, 0)
            },
        ],
        wires: vec![wire("w1", [0, 0], [2, 0]), wire("w2", [4, 0], [4, 0])],
        annotations: vec![],
    });
    let library = compile(&project).unwrap();
    let netlist = flatten(&project.main_circuit, &library).unwrap();
    let mut sim = Simulation::new(netlist);
    sim.run_to_quiescence();
    assert_eq!(get_bits(&sim, 2), vec![Bit::One, Bit::Zero, Bit::One]);
}

#[test]
fn ground_and_power_drive_all_zero_and_all_one_at_their_configured_width() {
    let mut w3 = NameMap::new();
    w3.insert("width".to_string(), AttrValue::Int(3));
    let project = single_circuit_project(Circuit {
        name: "main".to_string(),
        components: vec![
            ComponentInstance { attrs: w3.clone(), ..comp("g", "core:Ground", 0, 0) },
            ComponentInstance { attrs: w3.clone(), ..comp("gout", "core:OutputPin", 3, 0) },
            ComponentInstance { attrs: w3.clone(), ..comp("p", "core:Power", 0, 10) },
            ComponentInstance { attrs: w3, ..comp("pout", "core:OutputPin", 3, 10) },
        ],
        wires: vec![wire("w1", [0, 0], [3, 0]), wire("w2", [0, 10], [3, 10])],
        annotations: vec![],
    });
    let library = compile(&project).unwrap();
    let netlist = flatten(&project.main_circuit, &library).unwrap();
    let mut sim = Simulation::new(netlist);
    sim.run_to_quiescence();
    assert_eq!(get_bits(&sim, 1), vec![Bit::Zero, Bit::Zero, Bit::Zero], "Ground");
    assert_eq!(get_bits(&sim, 3), vec![Bit::One, Bit::One, Bit::One], "Power");
}

#[test]
fn power_at_width_thirty_two_does_not_overflow_the_mask() {
    let mut w32 = NameMap::new();
    w32.insert("width".to_string(), AttrValue::Int(32));
    let project = single_circuit_project(Circuit {
        name: "main".to_string(),
        components: vec![
            ComponentInstance { attrs: w32.clone(), ..comp("p", "core:Power", 0, 0) },
            ComponentInstance { attrs: w32, ..comp("out", "core:OutputPin", 3, 0) },
        ],
        wires: vec![wire("w1", [0, 0], [3, 0])],
        annotations: vec![],
    });
    let library = compile(&project).unwrap();
    let netlist = flatten(&project.main_circuit, &library).unwrap();
    let mut sim = Simulation::new(netlist);
    sim.run_to_quiescence();
    assert_eq!(get_bits(&sim, 1), vec![Bit::One; 32]);
}

#[test]
fn led_reflects_its_driven_input() {
    let project = single_circuit_project(Circuit {
        name: "main".to_string(),
        components: vec![comp("in", "core:InputPin", 0, 0), comp("led", "core:Led", 3, 0)],
        wires: vec![wire("w1", [0, 0], [3, 0])],
        annotations: vec![],
    });
    let library = compile(&project).unwrap();
    let netlist = flatten(&project.main_circuit, &library).unwrap();
    let mut sim = Simulation::new(netlist);
    sim.run_to_quiescence();
    assert_eq!(get_bit(&sim, 1), Bit::Zero);

    sim.invoke(0, "on", None).unwrap();
    sim.run_to_quiescence();
    assert_eq!(get_bit(&sim, 1), Bit::One);
}

#[test]
fn button_acts_as_a_momentary_one_bit_source() {
    let project = single_circuit_project(Circuit {
        name: "main".to_string(),
        components: vec![comp("btn", "core:Button", 0, 0), comp("out", "core:OutputPin", 3, 0)],
        wires: vec![wire("w1", [0, 0], [3, 0])],
        annotations: vec![],
    });
    let library = compile(&project).unwrap();
    let netlist = flatten(&project.main_circuit, &library).unwrap();
    let mut sim = Simulation::new(netlist);
    sim.run_to_quiescence();
    assert_eq!(get_bit(&sim, 1), Bit::Zero, "unpressed defaults to Zero, same as Button.propagate's Value.FALSE default");

    sim.invoke(0, "on", None).unwrap();
    sim.run_to_quiescence();
    assert_eq!(get_bit(&sim, 1), Bit::One);

    sim.invoke(0, "off", None).unwrap();
    sim.run_to_quiescence();
    assert_eq!(get_bit(&sim, 1), Bit::Zero);
}

#[test]
fn probe_reflects_a_multi_bit_driven_input() {
    let mut w3 = NameMap::new();
    w3.insert("width".to_string(), AttrValue::Int(3));
    let project = single_circuit_project(Circuit {
        name: "main".to_string(),
        components: vec![
            ComponentInstance { attrs: w3.clone(), ..comp("in", "core:InputPin", 0, 0) },
            ComponentInstance { attrs: w3, ..comp("probe", "core:Probe", 3, 0) },
        ],
        wires: vec![wire("w1", [0, 0], [3, 0])],
        annotations: vec![],
    });
    let library = compile(&project).unwrap();
    let netlist = flatten(&project.main_circuit, &library).unwrap();
    let mut sim = Simulation::new(netlist);
    sim.run_to_quiescence();
    assert_eq!(get_bits(&sim, 1), vec![Bit::Zero, Bit::Zero, Bit::Zero]);

    sim.invoke(0, "set", Some(Value::Int(0b101))).unwrap();
    sim.run_to_quiescence();
    assert_eq!(get_bits(&sim, 1), vec![Bit::One, Bit::Zero, Bit::One]);
}

#[test]
fn compiles_and_simulates_a_p_type_transistor_gated_by_an_input() {
    let mut w2 = NameMap::new();
    w2.insert("width".to_string(), AttrValue::Int(2));
    let project = single_circuit_project(Circuit {
        name: "main".to_string(),
        components: vec![
            ComponentInstance { attrs: w2.clone(), ..comp("data", "core:InputPin", 0, 0) },
            comp("gate", "core:InputPin", 0, -2),
            ComponentInstance { attrs: w2.clone(), ..comp("t", "core:Transistor", 0, 0) },
            ComponentInstance { attrs: w2, ..comp("out", "core:OutputPin", 2, 0) },
        ],
        wires: vec![wire("w1", [0, 0], [0, 0]), wire("w2", [0, -2], [0, -2]), wire("w3", [2, 0], [2, 0])],
        annotations: vec![],
    });
    let library = compile(&project).unwrap();
    let netlist = flatten(&project.main_circuit, &library).unwrap();
    let mut sim = Simulation::new(netlist);

    sim.invoke(0, "set", Some(Value::Int(0b10))).unwrap();

    sim.run_to_quiescence();
    assert_eq!(get_bits(&sim, 3), vec![Bit::Zero, Bit::One]);

    sim.invoke(1, "on", None).unwrap();
    sim.run_to_quiescence();
    assert_eq!(get_bits(&sim, 3), vec![Bit::Unknown, Bit::Unknown]);
}

#[test]
fn compiles_and_simulates_a_bit_extender_in_input_mode() {
    let mut in4 = NameMap::new();
    in4.insert("width".to_string(), AttrValue::Int(4));
    let mut ext_attrs = NameMap::new();
    ext_attrs.insert("in_width".to_string(), AttrValue::Int(4));
    ext_attrs.insert("out_width".to_string(), AttrValue::Int(8));
    ext_attrs.insert("type".to_string(), AttrValue::Str("input".to_string()));
    let mut out8 = NameMap::new();
    out8.insert("width".to_string(), AttrValue::Int(8));

    let project = single_circuit_project(Circuit {
        name: "main".to_string(),
        components: vec![
            ComponentInstance { attrs: in4, ..comp("data", "core:InputPin", 0, 0) },
            comp("extend", "core:InputPin", 0, -2),
            ComponentInstance { attrs: ext_attrs, ..comp("ext", "core:BitExtender", 0, 0) },
            ComponentInstance { attrs: out8, ..comp("out", "core:OutputPin", 2, 0) },
        ],
        wires: vec![wire("w1", [0, 0], [0, 0]), wire("w2", [0, -2], [0, -2]), wire("w3", [2, 0], [2, 0])],
        annotations: vec![],
    });
    let library = compile(&project).unwrap();
    let netlist = flatten(&project.main_circuit, &library).unwrap();
    let mut sim = Simulation::new(netlist);

    sim.invoke(0, "set", Some(Value::Int(0b0110))).unwrap();
    sim.invoke(1, "on", None).unwrap();
    sim.run_to_quiescence();
    assert_eq!(
        get_bits(&sim, 3),
        vec![Bit::Zero, Bit::One, Bit::One, Bit::Zero, Bit::One, Bit::One, Bit::One, Bit::One],
        "low 4 bits are `data`, high 4 filled with `extend`'s current value"
    );
}

#[test]
fn compiles_and_simulates_a_hex_digit_display() {
    let mut w4 = NameMap::new();
    w4.insert("width".to_string(), AttrValue::Int(4));
    let project = single_circuit_project(Circuit {
        name: "main".to_string(),
        components: vec![
            ComponentInstance { attrs: w4, ..comp("digit", "core:InputPin", 0, 0) },
            comp("dot", "core:InputPin", 0, -2),
            comp("disp", "core:HexDigit", 0, 0),
        ],
        wires: vec![wire("w1", [0, 0], [0, 0]), wire("w2", [0, -2], [0, -2])],
        annotations: vec![],
    });
    let library = compile(&project).unwrap();
    let netlist = flatten(&project.main_circuit, &library).unwrap();
    let mut sim = Simulation::new(netlist);

    sim.invoke(0, "set", Some(Value::Int(8))).unwrap();
    sim.invoke(1, "on", None).unwrap();
    sim.run_to_quiescence();
    assert_eq!(get_bits(&sim, 2), vec![Bit::One; 8], "digit 8 + dot -> all 8 bits set");
}
