use engine::components::Gate;
use engine::plugin_abi::{Bit, Component};

fn mux(select_bits: u8) -> Gate {
    Gate::Mux { bits: 1, select_bits, has_enable: true, disabled_zero: false }
}

fn demux(select_bits: u8) -> Gate {
    Gate::Demux { bits: 1, select_bits, has_enable: true, disabled_zero: false, tristate: false }
}

#[test]
fn mux_selects_the_indexed_data_line() {
    let mut m = mux(1);

    let out = m.eval(&[vec![Bit::Zero], vec![Bit::One], vec![Bit::Zero], vec![Bit::One]]);
    assert_eq!(out, vec![vec![Bit::Zero]], "select=0 -> d0");

    let out = m.eval(&[vec![Bit::Zero], vec![Bit::One], vec![Bit::One], vec![Bit::One]]);
    assert_eq!(out, vec![vec![Bit::One]], "select=1 -> d1");
}

#[test]
fn mux_disabled_reads_floating_by_default_not_zero() {
    let mut m = mux(1);
    let out = m.eval(&[vec![Bit::One], vec![Bit::One], vec![Bit::Zero], vec![Bit::Zero]]);
    assert_eq!(out, vec![vec![Bit::Unknown]], "default `disabled` option is floating (Unknown), not Zero");
}

#[test]
fn mux_disabled_zero_option_reads_zero() {
    let mut m = Gate::Mux { bits: 1, select_bits: 1, has_enable: true, disabled_zero: true };
    let out = m.eval(&[vec![Bit::One], vec![Bit::One], vec![Bit::Zero], vec![Bit::Zero]]);
    assert_eq!(out, vec![vec![Bit::Zero]]);
}

#[test]
fn mux_undriven_enable_still_selects_matching_value_ne_false() {
    let mut m = mux(1);
    let out = m.eval(&[vec![Bit::Zero], vec![Bit::One], vec![Bit::One], vec![Bit::Unknown]]);
    assert_eq!(out, vec![vec![Bit::One]], "Unknown enable still selects, same as Register's EN");
}

#[test]
fn mux_conflicting_enable_drivers_yield_error_output() {
    let mut m = mux(1);
    let out = m.eval(&[vec![Bit::Zero], vec![Bit::One], vec![Bit::One], vec![Bit::Error]]);
    assert_eq!(out, vec![vec![Bit::Error]]);
}

#[test]
fn mux_partially_undefined_select_yields_unknown_not_a_guess() {
    let mut m = mux(2);
    let out = m.eval(&[
        vec![Bit::Zero],
        vec![Bit::One],
        vec![Bit::Zero],
        vec![Bit::One],
        vec![Bit::Zero, Bit::Unknown],
        vec![Bit::One],
    ]);
    assert_eq!(out, vec![vec![Bit::Unknown]]);
}

#[test]
fn mux_select_with_an_error_bit_yields_error_not_unknown() {
    let mut m = mux(1);
    let out = m.eval(&[vec![Bit::Zero], vec![Bit::One], vec![Bit::Error], vec![Bit::One]]);
    assert_eq!(out, vec![vec![Bit::Error]], "an Error bit in select takes precedence over merely-Unknown");
}

#[test]
fn mux_without_enable_pin_is_always_active() {
    let mut m = Gate::Mux { bits: 1, select_bits: 1, has_enable: false, disabled_zero: false };

    let out = m.eval(&[vec![Bit::Zero], vec![Bit::One], vec![Bit::One]]);
    assert_eq!(out, vec![vec![Bit::One]]);
}

#[test]
fn demux_routes_data_to_the_selected_output_others_default_to_zero() {
    let mut d = demux(1);

    let out = d.eval(&[vec![Bit::One], vec![Bit::One], vec![Bit::One]]);
    assert_eq!(out, vec![vec![Bit::Zero], vec![Bit::One]], "select=1 -> output[1] gets data, output[0] idles at Zero");
}

#[test]
fn demux_tristate_option_idles_at_unknown_instead_of_zero() {
    let mut d = Gate::Demux { bits: 1, select_bits: 1, has_enable: true, disabled_zero: false, tristate: true };
    let out = d.eval(&[vec![Bit::One], vec![Bit::One], vec![Bit::One]]);
    assert_eq!(out, vec![vec![Bit::Unknown], vec![Bit::One]]);
}

#[test]
fn demux_disabled_sets_every_output_uniformly() {
    let mut d = demux(1);
    let out = d.eval(&[vec![Bit::One], vec![Bit::Zero], vec![Bit::One]]);
    assert_eq!(out, vec![vec![Bit::Unknown], vec![Bit::Unknown]], "disabled: no output is `selected`, all read the disabled value");
}

#[test]
fn demux_select_error_makes_every_output_error() {
    let mut d = demux(1);
    let out = d.eval(&[vec![Bit::Error], vec![Bit::One], vec![Bit::One]]);
    assert_eq!(out, vec![vec![Bit::Error], vec![Bit::Error]]);
}

fn decoder(select_bits: u8) -> Gate {
    Gate::Decoder { select_bits, has_enable: true, disabled_zero: false, tristate: false }
}

#[test]
fn decoder_asserts_the_selected_output_others_default_to_zero() {
    let mut d = decoder(1);

    let out = d.eval(&[vec![Bit::One], vec![Bit::One]]);
    assert_eq!(out, vec![vec![Bit::Zero], vec![Bit::One]], "select=1 -> output[1]=One, output[0] idles at Zero");
}

#[test]
fn decoder_tristate_option_idles_at_unknown_instead_of_zero() {
    let mut d = Gate::Decoder { select_bits: 1, has_enable: true, disabled_zero: false, tristate: true };
    let out = d.eval(&[vec![Bit::One], vec![Bit::One]]);
    assert_eq!(out, vec![vec![Bit::Unknown], vec![Bit::One]]);
}

#[test]
fn decoder_disabled_sets_every_output_uniformly() {
    let mut d = decoder(1);
    let out = d.eval(&[vec![Bit::One], vec![Bit::Zero]]);
    assert_eq!(out, vec![vec![Bit::Unknown], vec![Bit::Unknown]]);
}

#[test]
fn decoder_select_error_makes_every_output_error() {
    let mut d = decoder(1);
    let out = d.eval(&[vec![Bit::Error], vec![Bit::One]]);
    assert_eq!(out, vec![vec![Bit::Error], vec![Bit::Error]]);
}

#[test]
fn decoder_without_enable_pin_is_always_active() {
    let mut d = Gate::Decoder { select_bits: 1, has_enable: false, disabled_zero: false, tristate: false };

    let out = d.eval(&[vec![Bit::Zero]]);
    assert_eq!(out, vec![vec![Bit::One], vec![Bit::Zero]]);
}

fn priority_encoder(select_bits: u8) -> Gate {
    Gate::PriorityEncoder { select_bits, disabled_zero: false }
}

#[test]
fn priority_encoder_picks_the_highest_asserted_index() {
    let mut p = priority_encoder(2);

    let out = p.eval(&[vec![Bit::Zero], vec![Bit::One], vec![Bit::One], vec![Bit::Zero], vec![Bit::One]]);
    assert_eq!(out, vec![vec![Bit::Zero, Bit::One], vec![Bit::Zero], vec![Bit::One]], "out=2 (binary 10), enable_out=0, group_signal=1");
}

#[test]
fn priority_encoder_nothing_asserted_floats_and_passes_enable_downstream() {
    let mut p = priority_encoder(1);
    let out = p.eval(&[vec![Bit::Zero], vec![Bit::Zero], vec![Bit::One]]);
    assert_eq!(out, vec![vec![Bit::Unknown], vec![Bit::One], vec![Bit::Zero]]);
}

#[test]
fn priority_encoder_disabled_reads_disabled_zero_option_not_the_enabled_default() {
    let mut p = Gate::PriorityEncoder { select_bits: 1, disabled_zero: true };
    let out = p.eval(&[vec![Bit::One], vec![Bit::One], vec![Bit::Zero]]);
    assert_eq!(out, vec![vec![Bit::Zero], vec![Bit::Zero], vec![Bit::Zero]], "disabled -> disabled_zero wins over any asserted input");
}

#[test]
fn priority_encoder_error_enable_counts_as_active_not_a_conflict() {
    let mut p = priority_encoder(1);

    let out = p.eval(&[vec![Bit::Zero], vec![Bit::One], vec![Bit::Error]]);
    assert_eq!(out, vec![vec![Bit::One], vec![Bit::Zero], vec![Bit::One]], "i1 wins, same as any other active enable");
}

#[test]
fn priority_encoder_undefined_data_line_reads_as_not_asserted_not_error() {
    let mut p = priority_encoder(1);
    let out = p.eval(&[vec![Bit::Error], vec![Bit::Unknown], vec![Bit::One]]);
    assert_eq!(out, vec![vec![Bit::Unknown], vec![Bit::One], vec![Bit::Zero]], "neither line reads as asserted -> nothing found");
}
