use engine::components::Gate;
use engine::plugin_abi::{Bit, Component, Signal};

fn bits(bits: &[u8]) -> Signal {
    bits.iter().map(|&b| if b == 1 { Bit::One } else { Bit::Zero }).collect()
}

#[test]
fn adds_two_defined_numbers_with_correct_carry_out() {
    let mut g = Gate::Adder { bits: 4 };

    let out = g.eval(&[bits(&[0, 0, 1, 1]), bits(&[1, 0, 1, 0]), vec![Bit::Zero]]);
    assert_eq!(out, vec![bits(&[1, 0, 0, 0]), vec![Bit::One]]);
}

#[test]
fn floating_carry_in_defaults_to_zero_not_unknown() {
    let mut g = Gate::Adder { bits: 2 };

    let out = g.eval(&[bits(&[1, 0]), bits(&[1, 0]), vec![Bit::Unknown]]);
    assert_eq!(out, vec![bits(&[0, 1]), vec![Bit::Zero]]);
}

#[test]
fn an_error_bit_poisons_every_higher_bit_and_the_carry_out() {
    let mut g = Gate::Adder { bits: 4 };
    let out = g.eval(&[vec![Bit::Zero, Bit::Error, Bit::Zero, Bit::Zero], bits(&[0, 0, 0, 0]), vec![Bit::Zero]]);
    assert_eq!(out, vec![vec![Bit::Zero, Bit::Error, Bit::Error, Bit::Error], vec![Bit::Error]]);
}

#[test]
fn width_thirty_two_matches_the_narrower_width_path_bit_for_bit() {
    let mut g = Gate::Adder { bits: 32 };
    let ones = vec![Bit::One; 32];
    let out = g.eval(&[ones.clone(), ones, vec![Bit::One]]);

    assert_eq!(out[0], vec![Bit::One; 32]);
    assert_eq!(out[1], vec![Bit::One], "carry out of the top bit");
}

#[test]
fn subtracts_via_twos_complement_reusing_the_adder() {
    let mut g = Gate::Subtractor { bits: 4 };

    let out = g.eval(&[bits(&[1, 0, 1, 0]), bits(&[1, 1, 0, 0]), vec![Bit::Unknown]]);
    assert_eq!(out, vec![bits(&[0, 1, 0, 0]), vec![Bit::Zero]]);
}

#[test]
fn subtractor_borrow_out_signals_underflow() {
    let mut g = Gate::Subtractor { bits: 4 };

    let out = g.eval(&[bits(&[1, 1, 0, 0]), bits(&[1, 0, 1, 0]), vec![Bit::Unknown]]);
    assert_eq!(out, vec![bits(&[0, 1, 1, 1]), vec![Bit::One]]);
}

#[test]
fn comparator_unsigned_orders_by_raw_magnitude() {
    let mut g = Gate::Comparator { bits: 4, signed: false };

    let out = g.eval(&[bits(&[0, 0, 0, 1]), bits(&[1, 0, 0, 0])]);
    assert_eq!(out, vec![vec![Bit::One], vec![Bit::Zero], vec![Bit::Zero]], "gt, eq, lt");
}

#[test]
fn comparator_signed_treats_the_msb_as_the_sign_bit() {
    let mut g = Gate::Comparator { bits: 4, signed: true };

    let out = g.eval(&[bits(&[0, 0, 0, 1]), bits(&[1, 0, 0, 0])]);
    assert_eq!(out, vec![vec![Bit::Zero], vec![Bit::Zero], vec![Bit::One]], "gt, eq, lt");
}

#[test]
fn comparator_reports_equal_when_every_bit_matches() {
    let mut g = Gate::Comparator { bits: 4, signed: true };
    let out = g.eval(&[bits(&[1, 0, 1, 0]), bits(&[1, 0, 1, 0])]);
    assert_eq!(out, vec![vec![Bit::Zero], vec![Bit::One], vec![Bit::Zero]]);
}

#[test]
fn multiplies_two_defined_numbers_splitting_low_and_high_words() {
    let mut g = Gate::Multiplier { bits: 4 };

    let out = g.eval(&[bits(&[0, 0, 1, 1]), bits(&[1, 0, 1, 0]), vec![Bit::Zero; 4]]);
    assert_eq!(out, vec![bits(&[0, 0, 1, 1]), bits(&[1, 1, 0, 0])]);
}

#[test]
fn multiplier_floating_carry_in_defaults_to_zero() {
    let mut g = Gate::Multiplier { bits: 4 };
    let out = g.eval(&[bits(&[0, 0, 1, 1]), bits(&[1, 0, 1, 0]), vec![Bit::Unknown; 4]]);
    assert_eq!(out, vec![bits(&[0, 0, 1, 1]), bits(&[1, 1, 0, 0])], "wholly-floating c_in acts as zero, same as a wired-in zero");
}

#[test]
fn multiplier_partially_floating_carry_in_is_not_coerced_and_yields_unknown() {
    let mut g = Gate::Multiplier { bits: 4 };

    let out = g.eval(&[bits(&[0, 0, 1, 1]), bits(&[1, 0, 1, 0]), vec![Bit::Zero, Bit::Unknown, Bit::Zero, Bit::Zero]]);
    assert_eq!(out, vec![vec![Bit::Unknown; 4], vec![Bit::Unknown; 4]]);
}

#[test]
fn multiplier_at_width_32_does_not_sign_extend_a_top_bit_set_operand() {
    let mut g = Gate::Multiplier { bits: 32 };
    let mut a = vec![Bit::Zero; 32];
    a[31] = Bit::One;
    let mut b = vec![Bit::Zero; 32];
    b[1] = Bit::One;
    let out = g.eval(&[a, b, vec![Bit::Zero; 32]]);
    assert_eq!(out[0], vec![Bit::Zero; 32], "low word: 2^32 mod 2^32 = 0");
    let mut expected_high = vec![Bit::Zero; 32];
    expected_high[0] = Bit::One;
    assert_eq!(out[1], expected_high, "high word: 2^32 / 2^32 = 1");
}

#[test]
fn multiplier_error_bit_poisons_both_outputs() {
    let mut g = Gate::Multiplier { bits: 4 };
    let out = g.eval(&[vec![Bit::Zero, Bit::Error, Bit::Zero, Bit::Zero], bits(&[1, 0, 1, 0]), vec![Bit::Zero; 4]]);
    assert_eq!(out, vec![vec![Bit::Error; 4], vec![Bit::Error; 4]]);
}

#[test]
fn divides_with_a_nonzero_remainder() {
    let mut g = Gate::Divider { bits: 4 };

    let out = g.eval(&[bits(&[1, 0, 1, 1]), bits(&[0, 0, 1, 0]), vec![Bit::Zero; 4]]);
    assert_eq!(out, vec![bits(&[1, 1, 0, 0]), bits(&[1, 0, 0, 0])], "quotient=3, remainder=1");
}

#[test]
fn divider_division_by_zero_acts_as_division_by_one_not_an_error() {
    let mut g = Gate::Divider { bits: 4 };

    let out = g.eval(&[bits(&[1, 0, 1, 0]), vec![Bit::Zero; 4], vec![Bit::Zero; 4]]);
    assert_eq!(out, vec![bits(&[1, 0, 1, 0]), vec![Bit::Zero; 4]]);
}

#[test]
fn divider_floating_upper_half_defaults_to_zero() {
    let mut g = Gate::Divider { bits: 4 };
    let out = g.eval(&[bits(&[1, 0, 1, 1]), bits(&[0, 0, 1, 0]), vec![Bit::Unknown; 4]]);
    assert_eq!(out, vec![bits(&[1, 1, 0, 0]), bits(&[1, 0, 0, 0])], "wholly-floating upper acts as zero");
}

#[test]
fn divider_at_width_32_treats_the_dividend_as_unsigned_across_the_boundary() {
    let mut g = Gate::Divider { bits: 32 };
    let mut upper = vec![Bit::Zero; 32];
    upper[31] = Bit::One;
    let mut a = vec![Bit::Zero; 32];
    a[0] = Bit::One;
    let mut b = vec![Bit::Zero; 32];
    b[1] = Bit::One;
    let out = g.eval(&[a, b, upper]);

    assert_eq!(out[0], vec![Bit::Zero; 32], "quotient's low 32 bits: 2^62 has no bits below bit 32 set");
    let mut expected_rem = vec![Bit::Zero; 32];
    expected_rem[0] = Bit::One;
    assert_eq!(out[1], expected_rem, "remainder = 1");
}

#[test]
fn divider_error_bit_poisons_both_outputs() {
    let mut g = Gate::Divider { bits: 4 };
    let out = g.eval(&[vec![Bit::Zero, Bit::Error, Bit::Zero, Bit::Zero], bits(&[0, 0, 1, 0]), vec![Bit::Zero; 4]]);
    assert_eq!(out, vec![vec![Bit::Error; 4], vec![Bit::Error; 4]]);
}
