use engine::compile::{compile, CompileError};
use engine::file_format::{AttrValue, Circuit, ComponentInstance, Facing, ProjectFile, WireSegment};
use engine::name_map::NameMap;
use engine::netlist::flatten;
use engine::plugin_abi::{Bit, Value};
use engine::sim::Simulation;
use engine::compile::splitter::{bit_thread_for, default_bit_end};

fn comp(id: &str, type_: &str, x: i32, y: i32) -> ComponentInstance {
    ComponentInstance {
        id: id.to_string(),
        type_: type_.to_string(),
        x,
        y,
        facing: Facing::East,
        attrs: NameMap::new(),
    }
}

fn wire(id: &str, from: [i32; 2], to: [i32; 2]) -> WireSegment {
    WireSegment { id: id.to_string(), from, to }
}

fn get_bit(sim: &Simulation, gate: usize) -> Bit {
    match sim.read(gate, "get").unwrap() {
        Value::Bits(bits) => bits[0],
        other => panic!("unexpected readout {other:?}"),
    }
}

fn get_bits(sim: &Simulation, gate: usize) -> Vec<Bit> {
    match sim.read(gate, "get").unwrap() {
        Value::Bits(bits) => bits,
        other => panic!("unexpected readout {other:?}"),
    }
}

fn single_circuit_project(circuit: Circuit) -> ProjectFile {
    ProjectFile { schema_version: 1, main_circuit: circuit.name.clone(), circuits: vec![circuit] }
}

#[test]
fn default_distribution_matches_logisim_one_bit_per_end_when_fanout_covers_every_bit() {
    assert_eq!(default_bit_end(4, 4), vec![1, 2, 3, 4]);
}

#[test]
fn default_distribution_matches_logisim_contiguous_chunks_when_fanout_is_narrower() {
    assert_eq!(default_bit_end(2, 8), vec![1, 1, 1, 1, 2, 2, 2, 2]);

    assert_eq!(default_bit_end(3, 8), vec![1, 1, 1, 2, 2, 2, 3, 3]);
}

#[test]
fn bit_thread_counts_position_within_each_end() {
    assert_eq!(bit_thread_for(&[1, 1, 2, 1, 2]), vec![0, 1, 0, 2, 1]);
}

#[test]
fn splits_a_bus_into_two_contiguous_halves() {
    let mut wide = NameMap::new();
    wide.insert("width".to_string(), AttrValue::Int(8));
    let mut half = NameMap::new();
    half.insert("width".to_string(), AttrValue::Int(4));
    let mut spl = NameMap::new();
    spl.insert("incoming".to_string(), AttrValue::Int(8));
    spl.insert("fanout".to_string(), AttrValue::Int(2));

    let project = single_circuit_project(Circuit {
        name: "main".to_string(),
        components: vec![
            ComponentInstance { attrs: wide.clone(), ..comp("src", "core:InputPin", 0, 0) },
            ComponentInstance { attrs: spl, ..comp("spl", "core:Splitter", 0, 0) },
            ComponentInstance { attrs: half.clone(), ..comp("lo", "core:OutputPin", 3, 0) },
            ComponentInstance { attrs: half, ..comp("hi", "core:OutputPin", 3, 2) },
        ],

        wires: vec![wire("w1", [0, 0], [0, 0]), wire("w2", [3, 0], [3, 0]), wire("w3", [3, 2], [3, 2])],
        annotations: vec![],
    });

    let library = compile(&project).unwrap();
    let netlist = flatten(&project.main_circuit, &library).unwrap();
    let mut sim = Simulation::new(netlist);

    sim.invoke(0, "set", Some(Value::Int(0b1011_0010))).unwrap();
    sim.run_to_quiescence();

    assert_eq!(get_bits(&sim, 1), vec![Bit::Zero, Bit::One, Bit::Zero, Bit::Zero], "lo = low nibble");
    assert_eq!(get_bits(&sim, 2), vec![Bit::One, Bit::One, Bit::Zero, Bit::One], "hi = high nibble");
}

#[test]
fn joins_two_nibbles_into_one_bus_through_the_combined_end() {
    let mut wide = NameMap::new();
    wide.insert("width".to_string(), AttrValue::Int(8));
    let mut half = NameMap::new();
    half.insert("width".to_string(), AttrValue::Int(4));
    let mut spl = NameMap::new();
    spl.insert("incoming".to_string(), AttrValue::Int(8));
    spl.insert("fanout".to_string(), AttrValue::Int(2));

    let project = single_circuit_project(Circuit {
        name: "main".to_string(),
        components: vec![
            ComponentInstance { attrs: half.clone(), ..comp("lo", "core:InputPin", 3, 0) },
            ComponentInstance { attrs: half, ..comp("hi", "core:InputPin", 3, 2) },
            ComponentInstance { attrs: spl, ..comp("spl", "core:Splitter", 0, 0) },
            ComponentInstance { attrs: wide, ..comp("out", "core:OutputPin", 0, 0) },
        ],
        wires: vec![wire("w1", [3, 0], [3, 0]), wire("w2", [3, 2], [3, 2]), wire("w3", [0, 0], [0, 0])],
        annotations: vec![],
    });

    let library = compile(&project).unwrap();
    let netlist = flatten(&project.main_circuit, &library).unwrap();
    let mut sim = Simulation::new(netlist);

    sim.invoke(0, "set", Some(Value::Int(0b0010))).unwrap();
    sim.invoke(1, "set", Some(Value::Int(0b1011))).unwrap();
    sim.run_to_quiescence();

    assert_eq!(
        get_bits(&sim, 2),
        vec![Bit::Zero, Bit::One, Bit::Zero, Bit::Zero, Bit::One, Bit::One, Bit::Zero, Bit::One],
        "out = hi:lo = 1011_0010"
    );
}

#[test]
fn an_unconnected_bit_reads_as_floating() {
    let mut w2 = NameMap::new();
    w2.insert("width".to_string(), AttrValue::Int(2));
    let mut spl = NameMap::new();
    spl.insert("incoming".to_string(), AttrValue::Int(2));
    spl.insert("fanout".to_string(), AttrValue::Int(1));
    spl.insert("bits".to_string(), AttrValue::Array(vec![Some(1), Some(0)]));

    let project = single_circuit_project(Circuit {
        name: "main".to_string(),
        components: vec![
            ComponentInstance { attrs: w2.clone(), ..comp("src", "core:InputPin", 0, 0) },
            ComponentInstance { attrs: spl, ..comp("spl", "core:Splitter", 0, 0) },
            comp("out", "core:OutputPin", 3, 0),
        ],
        wires: vec![wire("w1", [0, 0], [0, 0]), wire("w2", [3, 0], [3, 0])],
        annotations: vec![],
    });

    let library = compile(&project).unwrap();
    let netlist = flatten(&project.main_circuit, &library).unwrap();
    let mut sim = Simulation::new(netlist);
    sim.invoke(0, "set", Some(Value::Int(0b11))).unwrap();
    sim.run_to_quiescence();

    assert_eq!(get_bit(&sim, 1), Bit::One, "bit 0 (bit_end=1) reaches the fanout end");
}

#[test]
fn rejects_fanout_above_thirty_two() {
    let mut attrs = NameMap::new();
    attrs.insert("fanout".to_string(), AttrValue::Int(33));
    let project = single_circuit_project(Circuit {
        name: "main".to_string(),
        components: vec![ComponentInstance { attrs, ..comp("spl", "core:Splitter", 0, 0) }],
        wires: vec![],
        annotations: vec![],
    });
    assert_eq!(
        compile(&project).unwrap_err(),
        CompileError::InvalidFanout { circuit: "main".to_string(), id: "spl".to_string(), value: 33 }
    );
}

#[test]
fn rejects_a_bits_array_of_the_wrong_length() {
    let mut attrs = NameMap::new();
    attrs.insert("incoming".to_string(), AttrValue::Int(4));
    attrs.insert("bits".to_string(), AttrValue::Array(vec![Some(1), Some(2)]));
    let project = single_circuit_project(Circuit {
        name: "main".to_string(),
        components: vec![ComponentInstance { attrs, ..comp("spl", "core:Splitter", 0, 0) }],
        wires: vec![],
        annotations: vec![],
    });
    assert!(matches!(compile(&project).unwrap_err(), CompileError::InvalidSplitterBits { .. }));
}
