use engine::components::signal::zeros;
use engine::components::{Gate, Trigger};
use engine::plugin_abi::{ActionError, Bit, Component, Signal, Value};

fn eval1(gate: &mut Gate, inputs: &[Bit]) -> Bit {
    let signals: Vec<Signal> = inputs.iter().map(|&b| vec![b]).collect();
    gate.eval(&signals)[0][0]
}

fn and2() -> Gate {
    Gate::And { bits: 1, inputs: 2 }
}
fn or2() -> Gate {
    Gate::Or { bits: 1, inputs: 2 }
}
fn not1() -> Gate {
    Gate::Not { bits: 1 }
}

#[test]
fn components_and_or_not_match_logisim_truth_tables() {
    assert_eq!(eval1(&mut and2(), &[Bit::One, Bit::One]), Bit::One);
    assert_eq!(eval1(&mut and2(), &[Bit::Zero, Bit::Unknown]), Bit::Zero);
    assert_eq!(eval1(&mut or2(), &[Bit::Zero, Bit::Zero]), Bit::Zero);
    assert_eq!(eval1(&mut or2(), &[Bit::One, Bit::Error]), Bit::One);
    assert_eq!(eval1(&mut not1(), &[Bit::One]), Bit::Zero);
}

#[test]
fn components_floating_input_reads_as_unknown_not_zero() {
    let mut and = and2();
    let out = and.eval(&[vec![Bit::One], vec![]]);
    assert_eq!(out, vec![vec![Bit::Error]]);
}

#[test]
fn components_nand_nor_xnor_negate_their_positive_counterpart() {
    let mut nand = Gate::Nand { bits: 1, inputs: 2 };
    assert_eq!(eval1(&mut nand, &[Bit::One, Bit::One]), Bit::Zero);
    assert_eq!(eval1(&mut nand, &[Bit::Zero, Bit::One]), Bit::One);

    let mut nor = Gate::Nor { bits: 1, inputs: 2 };
    assert_eq!(eval1(&mut nor, &[Bit::Zero, Bit::Zero]), Bit::One);
    assert_eq!(eval1(&mut nor, &[Bit::One, Bit::Zero]), Bit::Zero);

    let mut xnor = Gate::Xnor { bits: 1, inputs: 2 };
    assert_eq!(eval1(&mut xnor, &[Bit::One, Bit::Zero]), Bit::Zero);
    assert_eq!(eval1(&mut xnor, &[Bit::One, Bit::One]), Bit::One);
}

#[test]
fn components_xor_is_exactly_one_true_input_not_plain_parity_for_wider_arity() {
    let mut xor3 = Gate::Xor { bits: 1, inputs: 3 };
    assert_eq!(eval1(&mut xor3, &[Bit::One, Bit::One, Bit::One]), Bit::Zero);
    assert_eq!(eval1(&mut xor3, &[Bit::One, Bit::Zero, Bit::Zero]), Bit::One);
    assert_eq!(eval1(&mut xor3, &[Bit::One, Bit::One, Bit::Zero]), Bit::Zero);
}

#[test]
fn components_buffer_is_delayed_identity() {
    let mut buf = Gate::Buffer { bits: 1 };
    assert_eq!(buf.eval(&[vec![Bit::One]]), vec![vec![Bit::One]]);
    assert_eq!(buf.delay(), 1);
}

#[test]
fn components_constant_ignores_inputs_and_masks_to_its_own_width() {
    let mut c = Gate::Constant { bits: 4, value: 0b1_1010 };
    assert_eq!(c.eval(&[]), vec![vec![Bit::Zero, Bit::One, Bit::Zero, Bit::One]]);
    assert_eq!(c.input_count(), 0);
}

#[test]
fn components_multi_bit_and_is_elementwise_not_a_single_wide_comparison() {
    let mut and8 = Gate::And { bits: 4, inputs: 2 };
    let a = vec![Bit::One, Bit::One, Bit::Zero, Bit::Unknown];
    let b = vec![Bit::One, Bit::Zero, Bit::Zero, Bit::Zero];

    assert_eq!(and8.eval(&[a, b]), vec![vec![Bit::One, Bit::Zero, Bit::Zero, Bit::Zero]]);
}

#[test]
fn components_thirty_two_bit_width_does_not_panic() {
    let mut c = Gate::Constant { bits: 32, value: 0xFFFF_FFFF };
    let out = c.eval(&[]);
    assert_eq!(out[0].len(), 32);
    assert!(out[0].iter().all(|&b| b == Bit::One));
}

#[test]
fn components_input_pin_actions_and_readout_round_trip() {
    let mut pin = Gate::InputPin { bits: 1, value: vec![Bit::Zero] };
    pin.invoke("on", None).unwrap();
    assert_eq!(pin.read("get"), Ok(Value::Bits(vec![Bit::One])));
    pin.invoke("toggle", None).unwrap();
    assert_eq!(pin.read("get"), Ok(Value::Bits(vec![Bit::Zero])));
}

#[test]
fn components_wide_input_pin_sets_via_int_not_on_off_toggle() {
    let mut pin = Gate::InputPin { bits: 4, value: zeros(4) };
    assert_eq!(pin.actions(), vec!["set"]);
    assert_eq!(pin.invoke("on", None), Err(ActionError::UnknownAction("on".to_string())));
    pin.invoke("set", Some(Value::Int(0b1010))).unwrap();
    assert_eq!(pin.read("get"), Ok(Value::Bits(vec![Bit::Zero, Bit::One, Bit::Zero, Bit::One])));
}

fn clock(high: u64, low: u64) -> Gate {
    Gate::Clock { high, low, clicks: 0, sending: Bit::Zero }
}

#[test]
fn components_clock_is_a_pure_function_of_the_shared_tick_counter_not_its_own_timer() {
    let mut c = clock(2, 1);

    assert_eq!(c.eval(&[]), vec![vec![Bit::Zero]]);

    let expected = [
        (1u64, Bit::One),
        (2, Bit::One),
        (3, Bit::Zero),
        (4, Bit::One),
    ];
    for (t, want) in expected {
        c.tick(t);
        assert_eq!(c.eval(&[])[0][0], want, "tick {t}");
    }
}

#[test]
fn components_clock_tick_reports_whether_the_cached_value_actually_changed() {
    let mut c = clock(1, 1);
    assert!(c.tick(1));
    assert!(!c.tick(1), "calling tick again with the same tick number is idempotent");
}

#[test]
fn components_clock_manual_toggle_flips_immediately_and_shifts_future_phase() {
    let mut c = clock(1, 1);
    c.invoke("toggle", None).unwrap();
    assert_eq!(c.read("get"), Ok(Value::Bits(vec![Bit::One])), "toggle flips immediately, no tick needed");

    c.tick(2);
    assert_eq!(c.read("get"), Ok(Value::Bits(vec![Bit::One])), "parity shifted by the manual click");
}

fn register(bits: u8, trigger: Trigger) -> Gate {
    Gate::Register { bits, trigger, value: 0, last_clock: Bit::Zero }
}

fn reg_inputs(d: &[Bit], ck: Bit, clr: Bit, en: Bit) -> Vec<Signal> {
    vec![d.to_vec(), vec![ck], vec![clr], vec![en]]
}

#[test]
fn components_register_latches_on_rising_edge_when_enabled() {
    let mut r = register(4, Trigger::Rising);
    let d = [Bit::One, Bit::Zero, Bit::One, Bit::Zero];

    let out = r.eval(&reg_inputs(&d, Bit::Zero, Bit::Zero, Bit::One));
    assert_eq!(out, vec![zeros(4)]);

    let out = r.eval(&reg_inputs(&d, Bit::One, Bit::Zero, Bit::One));
    assert_eq!(out, vec![d.to_vec()]);

    let d2 = [Bit::Zero, Bit::Zero, Bit::Zero, Bit::Zero];
    let out = r.eval(&reg_inputs(&d2, Bit::One, Bit::Zero, Bit::One));
    assert_eq!(out, vec![d.to_vec()], "no edge, value must hold");
}

#[test]
fn components_register_undriven_enable_still_latches_matching_value_ne_false() {
    let mut r = register(1, Trigger::Rising);
    let out = r.eval(&reg_inputs(&[Bit::One], Bit::One, Bit::Zero, Bit::Unknown));
    assert_eq!(out, vec![vec![Bit::One]], "Unknown EN still latches");
}

#[test]
fn components_register_explicit_false_enable_blocks_latching() {
    let mut r = register(1, Trigger::Rising);
    let out = r.eval(&reg_inputs(&[Bit::One], Bit::One, Bit::Zero, Bit::Zero));
    assert_eq!(out, vec![vec![Bit::Zero]], "EN=0 blocks the edge");
}

#[test]
fn components_register_clear_wins_over_everything_without_needing_an_edge() {
    let mut r = register(4, Trigger::Rising);
    r.eval(&reg_inputs(&[Bit::One, Bit::One, Bit::One, Bit::One], Bit::One, Bit::Zero, Bit::One));
    assert_eq!(r.eval(&reg_inputs(&zeros(4), Bit::One, Bit::Zero, Bit::One))[0], vec![Bit::One; 4]);

    let out = r.eval(&reg_inputs(&zeros(4), Bit::One, Bit::One, Bit::One));
    assert_eq!(out, vec![zeros(4)]);
}

#[test]
fn components_register_ignores_a_partially_undefined_input_wholesale() {
    let mut r = register(2, Trigger::Rising);
    r.eval(&reg_inputs(&[Bit::One, Bit::One], Bit::One, Bit::Zero, Bit::One));

    r.eval(&reg_inputs(&[Bit::One, Bit::Zero], Bit::Zero, Bit::Zero, Bit::One));
    let out = r.eval(&reg_inputs(&[Bit::One, Bit::Unknown], Bit::One, Bit::Zero, Bit::One));
    assert_eq!(out, vec![vec![Bit::One, Bit::One]], "undefined D leaves the old value untouched");
}

#[test]
fn components_register_set_action_writes_directly_bypassing_clock_and_enable() {
    let mut r = register(4, Trigger::Rising);
    r.invoke("set", Some(Value::Int(0b1010))).unwrap();
    assert_eq!(r.read("get"), Ok(Value::Bits(vec![Bit::Zero, Bit::One, Bit::Zero, Bit::One])));
}
