use engine::components::{Gate, RamBus, Trigger};
use engine::plugin_abi::{Bit, Component, Signal, Value};

fn clock(high: u64, low: u64) -> Gate {
    Gate::Clock { high, low, clicks: 0, sending: Bit::Zero }
}

#[test]
fn memory_clock_is_a_pure_function_of_the_shared_tick_counter_not_its_own_timer() {
    let mut c = clock(2, 1);

    assert_eq!(c.eval(&[]), vec![vec![Bit::Zero]]);

    let expected = [
        (1u64, Bit::One),
        (2, Bit::One),
        (3, Bit::Zero),
        (4, Bit::One),
    ];
    for (t, want) in expected {
        c.tick(t);
        assert_eq!(c.eval(&[])[0][0], want, "tick {t}");
    }
}

#[test]
fn memory_clock_tick_reports_whether_the_cached_value_actually_changed() {
    let mut c = clock(1, 1);
    assert!(c.tick(1));
    assert!(!c.tick(1), "calling tick again with the same tick number is idempotent");
}

#[test]
fn memory_clock_manual_toggle_flips_immediately_and_shifts_future_phase() {
    let mut c = clock(1, 1);
    c.invoke("toggle", None).unwrap();
    assert_eq!(c.read("get"), Ok(Value::Bits(vec![Bit::One])), "toggle flips immediately, no tick needed");

    c.tick(2);
    assert_eq!(c.read("get"), Ok(Value::Bits(vec![Bit::One])), "parity shifted by the manual click");
}

fn register(bits: u8, trigger: Trigger) -> Gate {
    Gate::Register { bits, trigger, value: 0, last_clock: Bit::Zero }
}

fn reg_inputs(d: &[Bit], ck: Bit, clr: Bit, en: Bit) -> Vec<Signal> {
    vec![d.to_vec(), vec![ck], vec![clr], vec![en]]
}

fn zeros(bits: u8) -> Signal {
    vec![Bit::Zero; bits as usize]
}

#[test]
fn memory_register_latches_on_rising_edge_when_enabled() {
    let mut r = register(4, Trigger::Rising);
    let d = [Bit::One, Bit::Zero, Bit::One, Bit::Zero];

    let out = r.eval(&reg_inputs(&d, Bit::Zero, Bit::Zero, Bit::One));
    assert_eq!(out, vec![zeros(4)]);

    let out = r.eval(&reg_inputs(&d, Bit::One, Bit::Zero, Bit::One));
    assert_eq!(out, vec![d.to_vec()]);

    let d2 = [Bit::Zero, Bit::Zero, Bit::Zero, Bit::Zero];
    let out = r.eval(&reg_inputs(&d2, Bit::One, Bit::Zero, Bit::One));
    assert_eq!(out, vec![d.to_vec()], "no edge, value must hold");
}

#[test]
fn memory_register_undriven_enable_still_latches_matching_value_ne_false() {
    let mut r = register(1, Trigger::Rising);
    let out = r.eval(&reg_inputs(&[Bit::One], Bit::One, Bit::Zero, Bit::Unknown));
    assert_eq!(out, vec![vec![Bit::One]], "Unknown EN still latches");
}

#[test]
fn memory_register_explicit_false_enable_blocks_latching() {
    let mut r = register(1, Trigger::Rising);
    let out = r.eval(&reg_inputs(&[Bit::One], Bit::One, Bit::Zero, Bit::Zero));
    assert_eq!(out, vec![vec![Bit::Zero]], "EN=0 blocks the edge");
}

#[test]
fn memory_register_clear_wins_over_everything_without_needing_an_edge() {
    let mut r = register(4, Trigger::Rising);
    r.eval(&reg_inputs(&[Bit::One, Bit::One, Bit::One, Bit::One], Bit::One, Bit::Zero, Bit::One));
    assert_eq!(r.eval(&reg_inputs(&zeros(4), Bit::One, Bit::Zero, Bit::One))[0], vec![Bit::One; 4]);

    let out = r.eval(&reg_inputs(&zeros(4), Bit::One, Bit::One, Bit::One));
    assert_eq!(out, vec![zeros(4)]);
}

#[test]
fn memory_register_ignores_a_partially_undefined_input_wholesale() {
    let mut r = register(2, Trigger::Rising);
    r.eval(&reg_inputs(&[Bit::One, Bit::One], Bit::One, Bit::Zero, Bit::One));

    r.eval(&reg_inputs(&[Bit::One, Bit::Zero], Bit::Zero, Bit::Zero, Bit::One));
    let out = r.eval(&reg_inputs(&[Bit::One, Bit::Unknown], Bit::One, Bit::Zero, Bit::One));
    assert_eq!(out, vec![vec![Bit::One, Bit::One]], "undefined D leaves the old value untouched");
}

#[test]
fn memory_register_set_action_writes_directly_bypassing_clock_and_enable() {
    let mut r = register(4, Trigger::Rising);
    r.invoke("set", Some(Value::Int(0b1010))).unwrap();
    assert_eq!(r.read("get"), Ok(Value::Bits(vec![Bit::Zero, Bit::One, Bit::Zero, Bit::One])));
}

fn rom(addr_bits: u8, data_bits: u8, contents: Vec<u32>) -> Gate {
    Gate::Rom { addr_bits, data_bits, contents, held_data: zeros(data_bits) }
}

fn rom_inputs(addr: &[Bit], cs: Bit) -> Vec<Signal> {
    vec![addr.to_vec(), vec![cs]]
}

#[test]
fn rom_reads_the_addressed_cell_when_selected() {
    let mut r = rom(2, 4, vec![0x1, 0xA, 0x3, 0xF]);

    let out = r.eval(&rom_inputs(&[Bit::One, Bit::Zero], Bit::One));
    assert_eq!(out, vec![vec![Bit::Zero, Bit::One, Bit::Zero, Bit::One]]);
}

#[test]
fn rom_deselected_floats_actively_not_holds() {
    let mut r = rom(2, 4, vec![0xF, 0xF, 0xF, 0xF]);
    r.eval(&rom_inputs(&[Bit::One, Bit::Zero], Bit::One));
    let out = r.eval(&rom_inputs(&[Bit::One, Bit::Zero], Bit::Zero));
    assert_eq!(out, vec![vec![Bit::Unknown; 4]], "cs=0 actively drives Unknown, verified in Rom.propagate");
}

#[test]
fn rom_undefined_address_holds_the_previous_reading() {
    let mut r = rom(2, 4, vec![0x1, 0xA, 0x3, 0xF]);
    let first = r.eval(&rom_inputs(&[Bit::One, Bit::Zero], Bit::One));
    let held = r.eval(&rom_inputs(&[Bit::One, Bit::Unknown], Bit::One));
    assert_eq!(held, first, "an undefined address while still selected must not drive a new (e.g. floating) value");
}

#[test]
fn rom_undriven_cs_defaults_to_selected() {
    let mut r = rom(2, 4, vec![0x1, 0xA, 0x3, 0xF]);
    let out = r.eval(&rom_inputs(&[Bit::One, Bit::Zero], Bit::Unknown));
    assert_eq!(out, vec![vec![Bit::Zero, Bit::One, Bit::Zero, Bit::One]]);
}

fn ram(bus: RamBus, addr_bits: u8, data_bits: u8) -> Gate {
    Gate::Ram { addr_bits, data_bits, bus, contents: vec![0; 1usize << addr_bits], last_clock: Bit::Zero, held_data: zeros(data_bits) }
}

fn ram_bus_inputs(addr: &[Bit], cs: Bit, oe: Bit, clr: Bit, clk: Bit, data: &[Bit]) -> Vec<Signal> {
    vec![addr.to_vec(), vec![cs], vec![oe], vec![clr], vec![clk], data.to_vec()]
}

#[test]
fn ram_combined_write_on_rising_edge_then_read_back() {
    let mut r = ram(RamBus::Combined, 2, 4);
    let addr = [Bit::One, Bit::Zero];
    let data = [Bit::One, Bit::One, Bit::Zero, Bit::Zero];

    r.eval(&ram_bus_inputs(&addr, Bit::One, Bit::Zero, Bit::Zero, Bit::Zero, &data));
    r.eval(&ram_bus_inputs(&addr, Bit::One, Bit::Zero, Bit::Zero, Bit::One, &data));

    let out = r.eval(&ram_bus_inputs(&addr, Bit::One, Bit::One, Bit::Zero, Bit::One, &zeros(4)));
    assert_eq!(out, vec![data.to_vec()]);
}

#[test]
fn ram_combined_write_needs_a_real_edge_not_just_a_high_level() {
    let mut r = ram(RamBus::Combined, 2, 4);
    let addr = [Bit::One, Bit::Zero];
    let data = [Bit::One; 4];
    let other = [Bit::Zero; 4];

    r.eval(&ram_bus_inputs(&addr, Bit::One, Bit::Zero, Bit::Zero, Bit::Zero, &other));
    r.eval(&ram_bus_inputs(&addr, Bit::One, Bit::Zero, Bit::Zero, Bit::One, &data));

    r.eval(&ram_bus_inputs(&addr, Bit::One, Bit::Zero, Bit::Zero, Bit::One, &other));

    let out = r.eval(&ram_bus_inputs(&addr, Bit::One, Bit::One, Bit::Zero, Bit::One, &zeros(4)));
    assert_eq!(out, vec![data.to_vec()], "clock held high (no new edge) must not have re-triggered a write");
}

#[test]
fn ram_asynch_writes_without_needing_any_clock_edge() {
    let mut r = ram(RamBus::Asynch, 2, 4);
    let addr = [Bit::One, Bit::Zero];
    let data = [Bit::Zero, Bit::One, Bit::One, Bit::Zero];

    r.eval(&ram_bus_inputs(&addr, Bit::One, Bit::Zero, Bit::Zero, Bit::Zero, &data));
    let out = r.eval(&ram_bus_inputs(&addr, Bit::One, Bit::One, Bit::Zero, Bit::Zero, &zeros(4)));
    assert_eq!(out, vec![data.to_vec()]);
}

#[test]
fn ram_deselected_floats_actively_not_holds() {
    let mut r = ram(RamBus::Combined, 2, 4);
    let addr = [Bit::One, Bit::Zero];
    let data = [Bit::One; 4];
    r.eval(&ram_bus_inputs(&addr, Bit::One, Bit::Zero, Bit::Zero, Bit::Zero, &data));
    r.eval(&ram_bus_inputs(&addr, Bit::One, Bit::Zero, Bit::Zero, Bit::One, &data));

    let out = r.eval(&ram_bus_inputs(&addr, Bit::Zero, Bit::One, Bit::Zero, Bit::One, &zeros(4)));
    assert_eq!(out, vec![vec![Bit::Unknown; 4]]);
}

#[test]
fn ram_undefined_address_holds_the_previous_reading() {
    let mut r = ram(RamBus::Combined, 2, 4);
    let addr = [Bit::One, Bit::Zero];
    let data = [Bit::One, Bit::Zero, Bit::One, Bit::Zero];
    r.eval(&ram_bus_inputs(&addr, Bit::One, Bit::Zero, Bit::Zero, Bit::Zero, &data));
    r.eval(&ram_bus_inputs(&addr, Bit::One, Bit::Zero, Bit::Zero, Bit::One, &data));
    let first = r.eval(&ram_bus_inputs(&addr, Bit::One, Bit::One, Bit::Zero, Bit::One, &zeros(4)));

    let bad_addr = [Bit::One, Bit::Unknown];
    let held = r.eval(&ram_bus_inputs(&bad_addr, Bit::One, Bit::One, Bit::Zero, Bit::One, &zeros(4)));
    assert_eq!(held, first);
}

#[test]
fn ram_clear_is_strict_equality_unknown_does_not_clear() {
    let mut r = ram(RamBus::Combined, 2, 4);
    let addr = [Bit::One, Bit::Zero];
    let data = [Bit::One; 4];
    r.eval(&ram_bus_inputs(&addr, Bit::One, Bit::Zero, Bit::Zero, Bit::Zero, &data));
    r.eval(&ram_bus_inputs(&addr, Bit::One, Bit::Zero, Bit::Zero, Bit::One, &data));

    r.eval(&ram_bus_inputs(&addr, Bit::One, Bit::One, Bit::Unknown, Bit::One, &zeros(4)));
    let out = r.eval(&ram_bus_inputs(&addr, Bit::One, Bit::One, Bit::Unknown, Bit::One, &zeros(4)));
    assert_eq!(out, vec![data.to_vec()], "Unknown clr must not have cleared the cell");
}

#[test]
fn ram_clear_wins_even_while_deselected() {
    let mut r = ram(RamBus::Combined, 2, 4);
    let addr = [Bit::One, Bit::Zero];
    let data = [Bit::One; 4];
    r.eval(&ram_bus_inputs(&addr, Bit::One, Bit::Zero, Bit::Zero, Bit::Zero, &data));
    r.eval(&ram_bus_inputs(&addr, Bit::One, Bit::Zero, Bit::Zero, Bit::One, &data));

    r.eval(&ram_bus_inputs(&addr, Bit::Zero, Bit::One, Bit::One, Bit::One, &zeros(4)));
    let out = r.eval(&ram_bus_inputs(&addr, Bit::One, Bit::One, Bit::Zero, Bit::One, &zeros(4)));
    assert_eq!(out, vec![zeros(4)], "clear must have taken effect despite !cs");
}

#[test]
fn ram_write_with_undefined_data_stores_all_ones_not_an_error() {
    let mut r = ram(RamBus::Asynch, 2, 4);
    let addr = [Bit::One, Bit::Zero];
    r.eval(&ram_bus_inputs(&addr, Bit::One, Bit::Zero, Bit::Zero, Bit::Zero, &[Bit::One, Bit::Unknown, Bit::Zero, Bit::Zero]));
    let out = r.eval(&ram_bus_inputs(&addr, Bit::One, Bit::One, Bit::Zero, Bit::Zero, &zeros(4)));
    assert_eq!(out, vec![vec![Bit::One; 4]], "MemContents.set masks toIntValue()'s -1 sentinel to all-ones");
}

fn ram_separate_inputs(addr: &[Bit], cs: Bit, oe: Bit, clr: Bit, clk: Bit, we: Bit, din: &[Bit]) -> Vec<Signal> {
    vec![addr.to_vec(), vec![cs], vec![oe], vec![clr], vec![clk], vec![we], din.to_vec()]
}

#[test]
fn ram_separate_bus_writes_via_din_we_not_the_data_line() {
    let mut r = ram(RamBus::Separate, 2, 4);
    let addr = [Bit::One, Bit::Zero];
    let din = [Bit::Zero, Bit::One, Bit::Zero, Bit::One];

    r.eval(&ram_separate_inputs(&addr, Bit::One, Bit::One, Bit::Zero, Bit::Zero, Bit::One, &din));
    r.eval(&ram_separate_inputs(&addr, Bit::One, Bit::One, Bit::Zero, Bit::One, Bit::One, &din));

    let out = r.eval(&ram_separate_inputs(&addr, Bit::One, Bit::One, Bit::Zero, Bit::One, Bit::Zero, &zeros(4)));
    assert_eq!(out, vec![din.to_vec()]);
}

#[test]
fn ram_separate_bus_we_off_does_not_write() {
    let mut r = ram(RamBus::Separate, 2, 4);
    let addr = [Bit::One, Bit::Zero];
    let din = [Bit::One; 4];

    r.eval(&ram_separate_inputs(&addr, Bit::One, Bit::One, Bit::Zero, Bit::Zero, Bit::Zero, &din));
    r.eval(&ram_separate_inputs(&addr, Bit::One, Bit::One, Bit::Zero, Bit::One, Bit::Zero, &din));

    let out = r.eval(&ram_separate_inputs(&addr, Bit::One, Bit::One, Bit::Zero, Bit::One, Bit::Zero, &zeros(4)));
    assert_eq!(out, vec![zeros(4)], "we=0 must not have written");
}
