use engine::components::Gate;
use engine::plugin_abi::{Bit, Component, Signal};

fn eval1(gate: &mut Gate, inputs: &[Bit]) -> Bit {
    let signals: Vec<Signal> = inputs.iter().map(|&b| vec![b]).collect();
    gate.eval(&signals)[0][0]
}

fn and2() -> Gate {
    Gate::And { bits: 1, inputs: 2 }
}
fn or2() -> Gate {
    Gate::Or { bits: 1, inputs: 2 }
}
fn not1() -> Gate {
    Gate::Not { bits: 1 }
}

#[test]
fn logic_and_or_not_match_logisim_truth_tables() {
    assert_eq!(eval1(&mut and2(), &[Bit::One, Bit::One]), Bit::One);
    assert_eq!(eval1(&mut and2(), &[Bit::Zero, Bit::Unknown]), Bit::Zero);
    assert_eq!(eval1(&mut or2(), &[Bit::Zero, Bit::Zero]), Bit::Zero);
    assert_eq!(eval1(&mut or2(), &[Bit::One, Bit::Error]), Bit::One);
    assert_eq!(eval1(&mut not1(), &[Bit::One]), Bit::Zero);
}

#[test]
fn logic_floating_input_reads_as_unknown_not_zero() {
    let mut and = and2();
    let out = and.eval(&[vec![Bit::One], vec![]]);
    assert_eq!(out, vec![vec![Bit::Error]]);
}

#[test]
fn logic_nand_nor_xnor_negate_their_positive_counterpart() {
    let mut nand = Gate::Nand { bits: 1, inputs: 2 };
    assert_eq!(eval1(&mut nand, &[Bit::One, Bit::One]), Bit::Zero);
    assert_eq!(eval1(&mut nand, &[Bit::Zero, Bit::One]), Bit::One);

    let mut nor = Gate::Nor { bits: 1, inputs: 2 };
    assert_eq!(eval1(&mut nor, &[Bit::Zero, Bit::Zero]), Bit::One);
    assert_eq!(eval1(&mut nor, &[Bit::One, Bit::Zero]), Bit::Zero);

    let mut xnor = Gate::Xnor { bits: 1, inputs: 2 };
    assert_eq!(eval1(&mut xnor, &[Bit::One, Bit::Zero]), Bit::Zero);
    assert_eq!(eval1(&mut xnor, &[Bit::One, Bit::One]), Bit::One);
}

#[test]
fn logic_xor_is_exactly_one_true_input_not_plain_parity_for_wider_arity() {
    let mut xor3 = Gate::Xor { bits: 1, inputs: 3 };
    assert_eq!(eval1(&mut xor3, &[Bit::One, Bit::One, Bit::One]), Bit::Zero);
    assert_eq!(eval1(&mut xor3, &[Bit::One, Bit::Zero, Bit::Zero]), Bit::One);
    assert_eq!(eval1(&mut xor3, &[Bit::One, Bit::One, Bit::Zero]), Bit::Zero);
}

#[test]
fn logic_buffer_is_delayed_identity() {
    let mut buf = Gate::Buffer { bits: 1 };
    assert_eq!(buf.eval(&[vec![Bit::One]]), vec![vec![Bit::One]]);
    assert_eq!(buf.delay(), 1);
}

#[test]
fn controlled_buffer_passes_data_through_when_enabled() {
    let mut cb = Gate::ControlledBuffer { bits: 4 };

    let out = cb.eval(&[vec![Bit::One, Bit::Zero, Bit::One, Bit::One], vec![Bit::One]]);
    assert_eq!(out, vec![vec![Bit::One, Bit::Zero, Bit::One, Bit::One]]);
    assert_eq!(cb.delay(), 1);
}

#[test]
fn controlled_buffer_disabled_floats_not_zero() {
    let mut cb = Gate::ControlledBuffer { bits: 4 };
    let out = cb.eval(&[vec![Bit::One, Bit::One, Bit::One, Bit::One], vec![Bit::Zero]]);
    assert_eq!(out, vec![vec![Bit::Unknown; 4]]);
}

#[test]
fn controlled_buffer_undriven_enable_yields_error_not_passthrough() {
    let mut cb = Gate::ControlledBuffer { bits: 2 };
    let out = cb.eval(&[vec![Bit::One, Bit::One], vec![Bit::Unknown]]);
    assert_eq!(out, vec![vec![Bit::Error, Bit::Error]]);
}

#[test]
fn controlled_buffer_conflicting_enable_drivers_yield_error() {
    let mut cb = Gate::ControlledBuffer { bits: 2 };
    let out = cb.eval(&[vec![Bit::One, Bit::One], vec![Bit::Error]]);
    assert_eq!(out, vec![vec![Bit::Error, Bit::Error]]);
}

#[test]
fn logic_multi_bit_and_is_elementwise_not_a_single_wide_comparison() {
    let mut and8 = Gate::And { bits: 4, inputs: 2 };
    let a = vec![Bit::One, Bit::One, Bit::Zero, Bit::Unknown];
    let b = vec![Bit::One, Bit::Zero, Bit::Zero, Bit::Zero];

    assert_eq!(and8.eval(&[a, b]), vec![vec![Bit::One, Bit::Zero, Bit::Zero, Bit::Zero]]);
}
