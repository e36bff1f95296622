use engine::components::signal::{u32_to_signal, zeros};
use engine::components::{ExtendMode, Gate};
use engine::plugin_abi::{ActionError, Bit, Component, Signal, Value};

#[test]
fn wiring_constant_ignores_inputs_and_masks_to_its_own_width() {
    let mut c = Gate::Constant { bits: 4, value: 0b1_1010 };
    assert_eq!(c.eval(&[]), vec![vec![Bit::Zero, Bit::One, Bit::Zero, Bit::One]]);
    assert_eq!(c.input_count(), 0);
}

#[test]
fn wiring_thirty_two_bit_width_does_not_panic() {
    let mut c = Gate::Constant { bits: 32, value: 0xFFFF_FFFF };
    let out = c.eval(&[]);
    assert_eq!(out[0].len(), 32);
    assert!(out[0].iter().all(|&b| b == Bit::One));
}

#[test]
fn wiring_input_pin_actions_and_readout_round_trip() {
    let mut pin = Gate::InputPin { bits: 1, value: vec![Bit::Zero] };
    pin.invoke("on", None).unwrap();
    assert_eq!(pin.read("get"), Ok(Value::Bits(vec![Bit::One])));
    pin.invoke("toggle", None).unwrap();
    assert_eq!(pin.read("get"), Ok(Value::Bits(vec![Bit::Zero])));
}

#[test]
fn wiring_wide_input_pin_sets_via_int_not_on_off_toggle() {
    let mut pin = Gate::InputPin { bits: 4, value: zeros(4) };
    assert_eq!(pin.actions(), vec!["set"]);
    assert_eq!(pin.invoke("on", None), Err(ActionError::UnknownAction("on".to_string())));
    pin.invoke("set", Some(Value::Int(0b1010))).unwrap();
    assert_eq!(pin.read("get"), Ok(Value::Bits(vec![Bit::Zero, Bit::One, Bit::Zero, Bit::One])));
}

fn four_bits(pattern: u8) -> Signal {
    (0..4).map(|i| if (pattern >> i) & 1 != 0 { Bit::One } else { Bit::Zero }).collect()
}

#[test]
fn bit_extender_zero_mode_fills_high_bits_with_zero() {
    let mut e = Gate::BitExtender { in_bits: 4, out_bits: 8, mode: ExtendMode::Zero };
    let out = e.eval(&[four_bits(0b1011)]);
    assert_eq!(out, vec![vec![Bit::One, Bit::One, Bit::Zero, Bit::One, Bit::Zero, Bit::Zero, Bit::Zero, Bit::Zero]]);
}

#[test]
fn bit_extender_one_mode_fills_high_bits_with_one() {
    let mut e = Gate::BitExtender { in_bits: 4, out_bits: 8, mode: ExtendMode::One };
    let out = e.eval(&[four_bits(0b0001)]);
    assert_eq!(out, vec![vec![Bit::One, Bit::Zero, Bit::Zero, Bit::Zero, Bit::One, Bit::One, Bit::One, Bit::One]]);
}

#[test]
fn bit_extender_sign_mode_repeats_the_input_msb() {
    let mut e = Gate::BitExtender { in_bits: 4, out_bits: 8, mode: ExtendMode::Sign };
    let out = e.eval(&[four_bits(0b1011)]);
    assert_eq!(out, vec![vec![Bit::One, Bit::One, Bit::Zero, Bit::One, Bit::One, Bit::One, Bit::One, Bit::One]]);

    let out = e.eval(&[four_bits(0b0011)]);
    assert_eq!(out, vec![vec![Bit::One, Bit::One, Bit::Zero, Bit::Zero, Bit::Zero, Bit::Zero, Bit::Zero, Bit::Zero]]);
}

#[test]
fn bit_extender_input_mode_repeats_the_control_pin() {
    let mut e = Gate::BitExtender { in_bits: 4, out_bits: 8, mode: ExtendMode::Input };
    let out = e.eval(&[four_bits(0b0001), vec![Bit::Unknown]]);
    assert_eq!(out, vec![vec![Bit::One, Bit::Zero, Bit::Zero, Bit::Zero, Bit::Unknown, Bit::Unknown, Bit::Unknown, Bit::Unknown]]);
}

#[test]
fn bit_extender_truncates_when_out_bits_is_smaller() {
    let mut e = Gate::BitExtender { in_bits: 4, out_bits: 2, mode: ExtendMode::One };
    let out = e.eval(&[four_bits(0b1011)]);
    assert_eq!(out, vec![vec![Bit::One, Bit::One]]);
}

fn hex_digit_get(digit: u8, dot: Bit) -> Value {
    let mut h = Gate::HexDigit { value: zeros(8) };
    h.eval(&[four_bits(digit), vec![dot]]);
    h.read("get").unwrap()
}

#[test]
fn hex_digit_zero_lights_every_segment_except_the_middle_bar() {
    assert_eq!(hex_digit_get(0, Bit::Zero), Value::Bits(u32_to_signal(0x3F, 8)));
}

#[test]
fn hex_digit_one_lights_only_the_two_right_verticals() {
    assert_eq!(hex_digit_get(1, Bit::Zero), Value::Bits(u32_to_signal(0b0000_0110, 8)));
}

#[test]
fn hex_digit_eight_lights_every_segment() {
    assert_eq!(hex_digit_get(8, Bit::Zero), Value::Bits(u32_to_signal(0x7F, 8)));
}

#[test]
fn hex_digit_dot_sets_the_top_bit() {
    assert_eq!(hex_digit_get(0, Bit::One), Value::Bits(u32_to_signal(0x3F | 0x80, 8)));
}

#[test]
fn hex_digit_dot_error_does_not_set_the_bit() {
    assert_eq!(hex_digit_get(0, Bit::Error), Value::Bits(u32_to_signal(0x3F, 8)));
}

#[test]
fn hex_digit_undefined_value_displays_as_a_dash() {
    let mut h = Gate::HexDigit { value: zeros(8) };
    h.eval(&[vec![Bit::Zero, Bit::One, Bit::Unknown, Bit::Zero], vec![Bit::Zero]]);
    assert_eq!(h.read("get"), Ok(Value::Bits(u32_to_signal(0b0100_0000, 8))));
}

fn transistor_eval(t: &mut Gate, input: Signal, gate: Bit) -> Signal {
    t.eval(&[input, vec![gate]])[0].clone()
}

#[test]
fn p_type_transistor_passes_input_through_when_gate_is_zero() {
    let mut t = Gate::Transistor { bits: 3, conducts_on: Bit::Zero };
    let input = vec![Bit::One, Bit::Unknown, Bit::Error];
    assert_eq!(transistor_eval(&mut t, input.clone(), Bit::Zero), input);
}

#[test]
fn p_type_transistor_floats_when_gate_is_one() {
    let mut t = Gate::Transistor { bits: 3, conducts_on: Bit::Zero };
    let out = transistor_eval(&mut t, vec![Bit::One, Bit::One, Bit::One], Bit::One);
    assert_eq!(out, vec![Bit::Unknown; 3]);
}

#[test]
fn n_type_transistor_conducts_on_gate_one_not_zero() {
    let mut t = Gate::Transistor { bits: 2, conducts_on: Bit::One };
    assert_eq!(transistor_eval(&mut t, vec![Bit::One, Bit::Zero], Bit::One), vec![Bit::One, Bit::Zero]);
    assert_eq!(transistor_eval(&mut t, vec![Bit::One, Bit::Zero], Bit::Zero), vec![Bit::Unknown, Bit::Unknown]);
}

#[test]
fn transistor_undefined_gate_with_defined_input_forces_error() {
    let mut t = Gate::Transistor { bits: 3, conducts_on: Bit::Zero };
    let out = transistor_eval(&mut t, vec![Bit::One, Bit::Zero, Bit::One], Bit::Unknown);
    assert_eq!(out, vec![Bit::Error; 3]);
    let out = transistor_eval(&mut t, vec![Bit::One, Bit::Zero, Bit::One], Bit::Error);
    assert_eq!(out, vec![Bit::Error; 3]);
}

#[test]
fn transistor_undefined_gate_with_partially_undefined_input_maps_per_bit() {
    let mut t = Gate::Transistor { bits: 3, conducts_on: Bit::Zero };
    let out = transistor_eval(&mut t, vec![Bit::One, Bit::Unknown, Bit::Error], Bit::Unknown);
    assert_eq!(out, vec![Bit::Error, Bit::Unknown, Bit::Error]);
}
