use std::collections::HashMap;
use engine::compile::compile;
use engine::ctest::{parse, run, Cmp, Literal, Statement};
use engine::file_format::{Circuit, ComponentInstance, Facing, ProjectFile, WireSegment};
use engine::name_map::NameMap;
use engine::netlist::flatten_with_entry_map;
use engine::sim::Simulation;

fn comp(id: &str, type_: &str, x: i32, y: i32) -> ComponentInstance {
    ComponentInstance { id: id.to_string(), type_: type_.to_string(), x, y, facing: Facing::East, attrs: NameMap::new() }
}
fn wire(id: &str, at: [i32; 2]) -> WireSegment {
    WireSegment { id: id.to_string(), from: at, to: at }
}

fn and_project() -> ProjectFile {
    ProjectFile {
        schema_version: 1,
        main_circuit: "main".to_string(),
        circuits: vec![Circuit {
            name: "main".to_string(),
            components: vec![
                comp("a", "core:InputPin", 0, -1),
                comp("b", "core:InputPin", 0, 1),
                comp("g", "core:AndGate", 0, 0),
                comp("out", "core:OutputPin", 3, 0),
            ],
            wires: vec![wire("w1", [0, -1]), wire("w2", [0, 1]), wire("w3", [3, 0])],
            annotations: vec![],
        }],
    }
}

fn setup() -> (Simulation, HashMap<usize, usize>, Vec<ComponentInstance>) {
    let project = and_project();
    let library = compile(&project).unwrap();
    let (netlist, entry_map) = flatten_with_entry_map(&project.main_circuit, &library).unwrap();
    let sim = Simulation::new(netlist);
    let components = project.circuits[0].components.clone();
    (sim, entry_map, components)
}

fn resolver<'a>(
    entry_map: &'a HashMap<usize, usize>,
    components: &'a [ComponentInstance],
) -> impl Fn(&str) -> Option<usize> + 'a {
    move |id: &str| {
        let local = components.iter().position(|c| c.id == id)?;
        entry_map.get(&local).copied()
    }
}

#[test]
fn parses_the_readme_example() {
    let script = "component[sw_a] -> on\ncomponent[sw_b] -> set(0x05)\nsimulate\nassert component[out] -> get == 0x08\n";
    let parsed = parse(script).unwrap();
    assert_eq!(parsed.len(), 4);
    assert_eq!(
        parsed[0].1,
        Statement::Action { component: "sw_a".to_string(), action: "on".to_string(), arg: None }
    );
    assert_eq!(
        parsed[1].1,
        Statement::Action {
            component: "sw_b".to_string(),
            action: "set".to_string(),
            arg: Some(Literal::Hex(5))
        }
    );
    assert_eq!(parsed[2].1, Statement::Simulate { ticks: None });
    assert_eq!(
        parsed[3].1,
        Statement::Assert {
            component: "out".to_string(),
            readout: "get".to_string(),
            cmp: Cmp::Eq,
            expected: Literal::Hex(8)
        }
    );
}

#[test]
fn comments_and_blank_lines_are_ignored() {
    let script = "# a comment\n\ncomponent[a] -> on  # trailing comment\n";
    let parsed = parse(script).unwrap();
    assert_eq!(parsed.len(), 1);
}

#[test]
fn runs_a_passing_script_end_to_end() {
    let (mut sim, entry_map, components) = setup();
    let script = parse("component[a] -> on\ncomponent[b] -> on\nsimulate\nassert component[out] -> get == 1\n").unwrap();
    let report = run(&script, &mut sim, resolver(&entry_map, &components));
    assert!(report.passed(), "{:?}", report.failures);
    assert_eq!(report.asserts_run, 1);
}

#[test]
fn collects_multiple_failures_instead_of_stopping_at_the_first() {
    let (mut sim, entry_map, components) = setup();
    let script = parse(
        "component[a] -> on\ncomponent[b] -> off\nsimulate\nassert component[out] -> get == 1\nassert component[out] -> get == 0x1\n",
    )
    .unwrap();
    let report = run(&script, &mut sim, resolver(&entry_map, &components));
    assert_eq!(report.asserts_run, 2);
    assert_eq!(report.failures.len(), 2, "{:?}", report.failures);
}

#[test]
fn unknown_component_is_a_failure_not_a_panic() {
    let (mut sim, entry_map, components) = setup();
    let script = parse("assert component[nope] -> get == 0\n").unwrap();
    let report = run(&script, &mut sim, resolver(&entry_map, &components));
    assert_eq!(report.failures.len(), 1);
    assert!(report.failures[0].message.contains("unknown component"));
}
