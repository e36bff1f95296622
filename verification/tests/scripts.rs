use engine::compile::compile;
use engine::ctest::{
    parse, run, run_statement, Cmp, Literal, ParseError, RunReport, Statement,
};
use engine::file_format::{AttrValue, Circuit, ComponentInstance, Facing, ProjectFile};
use engine::name_map::NameMap;
use engine::netlist::flatten;
use engine::sim::Simulation;

fn comp(id: &str, type_: &str, x: i32, width: i64) -> ComponentInstance {
    let mut attrs = NameMap::new();
    attrs.insert("width".to_string(), AttrValue::Int(width));
    ComponentInstance {
        id: id.to_string(),
        type_: type_.to_string(),
        x,
        y: 0,
        facing: Facing::East,
        attrs,
    }
}

fn inverter(width: i64) -> Simulation {
    let project = ProjectFile {
        schema_version: 1,
        main_circuit: "main".to_string(),
        circuits: vec![Circuit {
            name: "main".to_string(),
            components: vec![
                comp("in", "core:InputPin", 0, width),
                comp("not", "core:NotGate", 0, width),
                comp("out", "core:OutputPin", 2, width),
                comp("open", "core:OutputPin", 50, width),
            ],
            wires: vec![],
            annotations: vec![],
        }],
    };
    Simulation::new(flatten("main", &compile(&project).unwrap()).unwrap())
}

fn resolve(id: &str) -> Option<usize> {
    ["in", "not", "out", "open"].iter().position(|known| *known == id)
}

fn run_on(width: i64, script: &str) -> RunReport {
    run(&parse(script).unwrap(), &mut inverter(width), resolve)
}

fn messages(report: &RunReport) -> Vec<(usize, String)> {
    report.failures.iter().map(|f| (f.line, f.message.clone())).collect()
}

fn parse_error(script: &str) -> String {
    parse(script).unwrap_err().to_text()
}

fn literal(text: &str) -> Option<Literal> {
    match parse(&format!("component[a] -> set({text})")) {
        Ok(list) => match &list[0].1 {
            Statement::Action { arg, .. } => *arg,
            other => panic!("unexpected statement {other:?}"),
        },
        Err(_) => None,
    }
}

#[test]
fn literals_are_read_in_every_base() {
    assert_eq!(literal("0xFf"), Some(Literal::Hex(255)));
    assert_eq!(literal("0Xff"), Some(Literal::Hex(255)));
    assert_eq!(literal("0b101"), Some(Literal::Bin(5)));
    assert_eq!(literal("0B1"), Some(Literal::Bin(1)));
    assert_eq!(literal(" 42 "), Some(Literal::Dec(42)));
    assert_eq!(literal("+7"), Some(Literal::Dec(7)));
    assert_eq!(literal("on"), Some(Literal::Bool(true)));
    assert_eq!(literal("true"), Some(Literal::Bool(true)));
    assert_eq!(literal("off"), Some(Literal::Bool(false)));
    assert_eq!(literal("false"), Some(Literal::Bool(false)));
    assert_eq!(literal("18446744073709551615"), Some(Literal::Dec(u64::MAX)));
    for bad in ["", "0x", "0xg", "0b2", "-1", "18446744073709551616", "ON", "1.5", "+"] {
        assert_eq!(literal(bad), None, "{bad}");
    }
}

#[test]
fn literals_read_as_they_are_written() {
    for text in ["0xff", "0b1010", "0", "65535", "true", "false", "0x0", "0b0"] {
        assert_eq!(literal(text).unwrap().to_text(), text);
    }
}

#[test]
fn statements_are_read_with_their_lines() {
    let parsed = parse(
        "# a comment\n\ncomponent[ in ]->set ( 3 ) # trailing\r\n  simulate 4\nassert component [out] -> get != 0b10",
    )
    .unwrap();
    assert_eq!(
        parsed,
        vec![
            (
                3,
                Statement::Action {
                    component: "in".to_string(),
                    action: "set".to_string(),
                    arg: Some(Literal::Dec(3)),
                }
            ),
            (4, Statement::Simulate { ticks: Some(4) }),
            (
                5,
                Statement::Assert {
                    component: "out".to_string(),
                    readout: "get".to_string(),
                    cmp: Cmp::Ne,
                    expected: Literal::Bin(2),
                }
            ),
        ]
    );
    assert_eq!(parse("").unwrap(), vec![]);
}

#[test]
fn parse_errors_say_what_is_missing() {
    let cases = [
        ("wait", "line 1: expected `component[...]`"),
        ("component", "line 1: expected `[` after `component`"),
        ("component[a", "line 1: missing closing `]`"),
        ("component[ ] -> on", "line 1: component id must not be empty"),
        ("component[a] on", "line 1: expected `->` after `component[...]`"),
        ("component[a] -> ", "line 1: expected an action/readout name after `->`"),
        ("component[a] -> set 5", "line 1: expected `(<value>)` after action name, or nothing"),
        ("component[a] -> set(five)", "line 1: invalid literal `five`"),
        ("\nsimulate soon", "line 2: expected an integer tick count after `simulate`"),
        ("simulate 4294967296", "line 1: expected an integer tick count after `simulate`"),
        ("assert component[a] -> get = 1", "line 1: expected `==` or `!=` in assert"),
        ("assert component[a] -> get == ", "line 1: invalid literal ``"),
    ];
    for (script, message) in cases {
        assert_eq!(parse_error(script), message);
    }
    assert_eq!(
        parse("simulate\nwait"),
        Err(ParseError { line: 2, message: "expected `component[...]`".to_string() })
    );
}

#[test]
fn every_failure_is_reported_with_its_line() {
    let report = run_on(
        1,
        "component[in] -> explode\n\
         component[gone] -> on\n\
         component[in] -> on\n\
         simulate\n\
         assert component[out] -> get == 1\n\
         assert component[gone] -> get == 1\n\
         assert component[out] -> peek == 1\n\
         assert component[out] -> get == 0\n\
         assert component[open] -> get != off\n\
         assert component[open] -> get == off\n",
    );
    assert_eq!(
        messages(&report),
        vec![
            (1, "component[in] -> explode: UnknownAction(\"explode\")".to_string()),
            (2, "unknown component `gone`".to_string()),
            (5, "assert component[out] -> get == 1: got 0".to_string()),
            (6, "unknown component `gone`".to_string()),
            (7, "component[out] -> peek: UnknownReadout(\"peek\")".to_string()),
            (10, "assert component[open] -> get == false: got x".to_string()),
        ]
    );
    assert_eq!(report.asserts_run, 6);
    assert!(!report.passed());
}

#[test]
fn wide_readouts_show_the_highest_bit_first() {
    let report = run_on(
        4,
        "component[in] -> set(0b0010)\n\
         simulate\n\
         assert component[out] -> get == 0xd\n\
         assert component[out] -> get == 0x2\n\
         assert component[out] -> get == on\n\
         assert component[open] -> get == 0\n",
    );
    assert_eq!(
        messages(&report),
        vec![
            (4, "assert component[out] -> get == 0x2: got 1101".to_string()),
            (5, "assert component[out] -> get == true: got 1101".to_string()),
            (6, "assert component[open] -> get == 0: got xxxx".to_string()),
        ]
    );
}

#[test]
fn bad_arguments_are_reported() {
    let report = run_on(4, "component[in] -> set(true)\ncomponent[in] -> on\n");
    assert_eq!(report.failures.len(), 2);
    assert!(report.failures[0].message.starts_with("component[in] -> set: InvalidArg { action: \"set\""));
    assert_eq!(report.failures[1].message, "component[in] -> on: UnknownAction(\"on\")");
}

#[test]
fn assertions_do_not_change_the_simulation() {
    let mut sim = inverter(1);
    sim.run_to_quiescence();
    let before: Vec<_> = (0..4).filter(|g| *g != 1).map(|g| sim.read(g, "get")).collect();
    let script = parse("assert component[out] -> get == 0\nassert component[in] -> get == 0").unwrap();
    let report = run(&script, &mut sim, resolve);
    assert_eq!((report.asserts_run, report.failures.len()), (2, 1));
    assert_eq!(
        (0..4).filter(|g| *g != 1).map(|g| sim.read(g, "get")).collect::<Vec<_>>(),
        before
    );
    assert!(!sim.step());
}

#[test]
fn a_passing_run_has_no_failures() {
    let report = run_on(1, "simulate 0\nassert component[out] -> get == 1\nsimulate 3");
    assert!(report.passed());
    assert_eq!(report.asserts_run, 1);
}

#[test]
fn single_statements_add_to_a_report() {
    let mut sim = inverter(1);
    let mut report = RunReport::default();
    for (line, statement) in parse("simulate\nassert component[out] -> get == 0").unwrap() {
        let gate = match &statement {
            Statement::Simulate { .. } => None,
            _ => Some(2),
        };
        run_statement(line, &statement, gate, &mut sim, &mut report);
    }
    assert_eq!(
        messages(&report),
        vec![(2, "assert component[out] -> get == 0: got 1".to_string())]
    );
}
