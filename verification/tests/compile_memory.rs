use engine::compile::{compile, CompileError};
use engine::file_format::{AttrValue, Circuit, ComponentInstance, Facing, ProjectFile};
use engine::name_map::NameMap;
use engine::netlist::flatten;
use engine::plugin_abi::{Bit, Value};
use engine::sim::Simulation;

fn comp(id: &str, type_: &str, x: i32, y: i32) -> ComponentInstance {
    ComponentInstance {
        id: id.to_string(),
        type_: type_.to_string(),
        x,
        y,
        facing: Facing::East,
        attrs: NameMap::new(),
    }
}

fn get_bits(sim: &Simulation, gate: usize) -> Vec<Bit> {
    match sim.read(gate, "get").unwrap() {
        Value::Bits(bits) => bits,
        other => panic!("unexpected readout {other:?}"),
    }
}

fn single_circuit_project(circuit: Circuit) -> ProjectFile {
    ProjectFile { schema_version: 1, main_circuit: circuit.name.clone(), circuits: vec![circuit] }
}

#[test]
fn memory_rejects_zero_duration_clock() {
    let mut attrs = NameMap::new();
    attrs.insert("highDuration".to_string(), AttrValue::Int(0));
    let project = single_circuit_project(Circuit {
        name: "main".to_string(),
        components: vec![ComponentInstance { attrs, ..comp("clk", "core:Clock", 0, 0) }],
        wires: vec![],
        annotations: vec![],
    });
    assert_eq!(
        compile(&project).unwrap_err(),
        CompileError::InvalidClockDuration {
            circuit: "main".to_string(),
            id: "clk".to_string(),
            field: "highDuration",
            value: 0,
        }
    );
}

#[test]
fn memory_rejects_unknown_trigger_option() {
    let mut attrs = NameMap::new();
    attrs.insert("trigger".to_string(), AttrValue::Str("on_edge".to_string()));
    let project = single_circuit_project(Circuit {
        name: "main".to_string(),
        components: vec![ComponentInstance { attrs, ..comp("r", "core:Register", 0, 0) }],
        wires: vec![],
        annotations: vec![],
    });
    assert_eq!(
        compile(&project).unwrap_err(),
        CompileError::InvalidTrigger { circuit: "main".to_string(), id: "r".to_string(), value: "on_edge".to_string() }
    );
}

#[test]
fn memory_clock_drives_a_register_through_simulation_tick() {
    let mut const_attrs = NameMap::new();
    const_attrs.insert("width".to_string(), AttrValue::Int(3));
    const_attrs.insert("value".to_string(), AttrValue::Int(0b101));
    let mut reg_attrs = NameMap::new();
    reg_attrs.insert("width".to_string(), AttrValue::Int(3));

    let project = single_circuit_project(Circuit {
        name: "main".to_string(),
        components: vec![
            ComponentInstance { attrs: const_attrs, ..comp("d", "core:Constant", 10, 0) },
            ComponentInstance { attrs: reg_attrs, ..comp("r", "core:Register", 10, 0) },
            comp("clk", "core:Clock", 11, 2),
            ComponentInstance {
                attrs: { let mut a = NameMap::new(); a.insert("width".to_string(), AttrValue::Int(3)); a },
                ..comp("out", "core:OutputPin", 14, 0)
            },
        ],
        wires: vec![],
        annotations: vec![],
    });

    let library = compile(&project).unwrap();
    let netlist = flatten(&project.main_circuit, &library).unwrap();
    let mut sim = Simulation::new(netlist);
    sim.run_to_quiescence();
    assert_eq!(get_bits(&sim, 3), vec![Bit::Zero, Bit::Zero, Bit::Zero], "nothing latched before the first tick");

    sim.tick();
    sim.run_to_quiescence();
    assert_eq!(get_bits(&sim, 3), vec![Bit::One, Bit::Zero, Bit::One], "rising edge latches D=0b101");

    sim.tick();
    sim.run_to_quiescence();
    assert_eq!(get_bits(&sim, 3), vec![Bit::One, Bit::Zero, Bit::One], "falling edge must not relatch");
}
