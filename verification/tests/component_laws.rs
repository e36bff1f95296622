use engine::components::io::char_bits;
use engine::components::signal::{bit_at, fit, signal_to_u32_if_defined, u32_to_signal};
use engine::components::{DotMatrixInput, ExtendMode, Gate, RamBus, Trigger};
use engine::plugin_abi::{render_arg, ActionError, Bit, Component, ReadoutError, Signal, Value};

const ALL_BITS: [Bit; 4] = [Bit::Zero, Bit::One, Bit::Unknown, Bit::Error];

fn word(value: u32, bits: u8) -> Signal {
    u32_to_signal(value, bits)
}

fn number(signal: &Signal) -> u32 {
    signal_to_u32_if_defined(signal, signal.len() as u8).unwrap()
}

fn one(b: Bit) -> Signal {
    vec![b]
}

fn sample_gates() -> Vec<Gate> {
    vec![
        Gate::And { bits: 2, inputs: 3 },
        Gate::InputPin { bits: 3, value: vec![Bit::One, Bit::Error, Bit::Unknown] },
        Gate::OutputPin { bits: 2, value: vec![Bit::Zero, Bit::Unknown] },
        Gate::HexDigit { value: word(0x7e, 8) },
        Gate::Clock { high: 2, low: 3, clicks: 7, sending: Bit::One },
        Gate::Register { bits: 5, trigger: Trigger::Falling, value: 19, last_clock: Bit::One },
        Gate::Rom { addr_bits: 2, data_bits: 3, contents: vec![1, 2, 3, 4], held_data: word(5, 3) },
        Gate::Ram {
            addr_bits: 1,
            data_bits: 4,
            bus: RamBus::Separate,
            contents: vec![9, 6],
            last_clock: Bit::Error,
            held_data: vec![Bit::Unknown; 4],
        },
        Gate::DotMatrix {
            rows: 2,
            cols: 2,
            input: DotMatrixInput::Row,
            grid: vec![Bit::One, Bit::Zero, Bit::Error, Bit::Unknown],
        },
        Gate::Tty {
            cols: 8,
            rows: 3,
            trigger: Trigger::Rising,
            last_clock: Bit::One,
            row_data: vec![vec!['h', 'i'], vec!['\u{e9}']],
            last_row: vec!['?'],
            row: 2,
        },
        Gate::Keyboard {
            capacity: 4,
            trigger: Trigger::Rising,
            last_clock: Bit::Zero,
            buffer: vec!['a', '\u{1F600}'],
            cursor: 1,
        },
    ]
}

#[test]
fn combining_drivers_is_a_commutative_monoid() {
    for a in ALL_BITS {
        assert_eq!(a.combine(Bit::Unknown), a);
        assert_eq!(a.combine(a), a);
        assert_eq!(a.combine(Bit::Error), Bit::Error);
        for b in ALL_BITS {
            assert_eq!(a.combine(b), b.combine(a));
            for c in ALL_BITS {
                assert_eq!(a.combine(b).combine(c), a.combine(b.combine(c)));
            }
        }
    }
}

#[test]
fn bit_operations_follow_de_morgan() {
    for a in ALL_BITS {
        assert_eq!(Bit::Zero.and(a), Bit::Zero);
        assert_eq!(Bit::One.or(a), Bit::One);
        for b in ALL_BITS {
            assert_eq!(a.and(b).not(), a.not().or(b.not()));
            assert_eq!(a.or(b).not(), a.not().and(b.not()));
            assert_eq!(a.and(b), b.and(a));
            assert_eq!(a.or(b), b.or(a));
        }
    }
    assert_eq!(Bit::One.not().not(), Bit::One);
    assert_eq!(Bit::Unknown.not().not(), Bit::Error);
}

#[test]
fn signals_and_numbers_convert_both_ways() {
    assert_eq!(word(6, 4), vec![Bit::Zero, Bit::One, Bit::One, Bit::Zero]);
    for value in [0, 1, 5, 31] {
        assert_eq!(number(&word(value, 5)), value);
    }
    assert_eq!(word(u32::MAX, 32), vec![Bit::One; 32]);
    assert_eq!(number(&word(u32::MAX, 32)), u32::MAX);
    assert_eq!(signal_to_u32_if_defined(&vec![Bit::One, Bit::Unknown], 2), None);
    assert_eq!(signal_to_u32_if_defined(&vec![Bit::One, Bit::Unknown], 1), Some(1));
    assert_eq!(bit_at(&vec![Bit::One], 3), Bit::Unknown);
    assert_eq!(fit(&vec![Bit::One], 2), vec![Bit::One, Bit::Unknown]);
}

#[test]
fn saved_state_restores_into_a_fresh_gate() {
    for gate in sample_gates() {
        let mut other = gate.clone();
        other.init();
        other.deserialize_state(&gate.serialize_state());
        assert_eq!(other, gate);
    }
}

#[test]
fn resetting_twice_is_resetting_once() {
    for gate in sample_gates() {
        let mut once = gate.clone();
        once.init();
        let mut twice = once.clone();
        twice.init();
        assert_eq!(once, twice);
        assert_eq!(once.input_count(), gate.input_count());
        assert_eq!(once.output_count(), gate.output_count());
    }
}

#[test]
fn evaluating_again_changes_nothing() {
    for gate in sample_gates() {
        let inputs: Vec<Signal> =
            (0..gate.input_count()).map(|p| word(1, gate.input_width(p))).collect();
        let mut g = gate.clone();
        let first = g.eval(&inputs);
        let after = g.clone();
        let second = g.eval(&inputs);
        assert_eq!(first, second);
        assert_eq!(after, g);
        assert_eq!(first.len(), gate.output_count());
        for (p, signal) in first.iter().enumerate() {
            assert_eq!(signal.len(), gate.output_width(p) as usize);
        }
    }
}

#[test]
fn delays_are_those_of_the_kinds() {
    assert_eq!(Gate::Not { bits: 1 }.delay(), 1);
    assert_eq!(Gate::Constant { bits: 1, value: 0 }.delay(), 0);
    assert_eq!(
        Gate::Register { bits: 1, trigger: Trigger::Rising, value: 0, last_clock: Bit::Zero }
            .delay(),
        8
    );
    assert_eq!(
        Gate::Mux { bits: 1, select_bits: 1, has_enable: false, disabled_zero: false }.delay(),
        3
    );
    assert_eq!(Gate::Adder { bits: 8 }.delay(), 10);
    assert_eq!(Gate::Comparator { bits: 8, signed: false }.delay(), 10);
    assert_eq!(Gate::Subtractor { bits: 8 }.delay(), 12);
    assert_eq!(Gate::Multiplier { bits: 8 }.delay(), 80);
    assert_eq!(Gate::Divider { bits: 255 }.delay(), 255 * 257);
}

#[test]
fn dominant_inputs_decide_wide_gates() {
    let mut and = Gate::And { bits: 1, inputs: 3 };
    assert_eq!(and.eval(&[one(Bit::Error), one(Bit::Zero), one(Bit::Unknown)])[0][0], Bit::Zero);
    let mut or = Gate::Or { bits: 1, inputs: 3 };
    assert_eq!(or.eval(&[one(Bit::Error), one(Bit::One), one(Bit::Unknown)])[0][0], Bit::One);
}

#[test]
fn negating_gates_negate() {
    for a in ALL_BITS {
        for b in ALL_BITS {
            let ins = [one(a), one(b)];
            let and = Gate::And { bits: 1, inputs: 2 }.eval(&ins)[0][0];
            let nand = Gate::Nand { bits: 1, inputs: 2 }.eval(&ins)[0][0];
            assert_eq!(nand, and.not());
            let xor = Gate::Xor { bits: 1, inputs: 2 }.eval(&ins)[0][0];
            let xnor = Gate::Xnor { bits: 1, inputs: 2 }.eval(&ins)[0][0];
            assert_eq!(xnor, xor.not());
        }
    }
}

#[test]
fn adder_and_subtractor_agree_with_the_numbers() {
    for a in [0u32, 3, 9, 15] {
        for b in [0u32, 1, 8, 15] {
            for carry in [0u32, 1] {
                let ins = [word(a, 4), word(b, 4), word(carry, 1)];
                let sum = Gate::Adder { bits: 4 }.eval(&ins);
                assert_eq!(number(&sum[0]) + 16 * number(&sum[1]), a + b + carry);
                let diff = Gate::Subtractor { bits: 4 }.eval(&ins);
                let want = a as i64 - b as i64 - carry as i64;
                assert_eq!(number(&diff[0]) as i64 - 16 * number(&diff[1]) as i64, want);
            }
        }
    }
}

#[test]
fn multiplier_and_divider_agree_with_the_numbers() {
    let product = Gate::Multiplier { bits: 4 }.eval(&[word(13, 4), word(11, 4), word(9, 4)]);
    assert_eq!(number(&product[0]) + 16 * number(&product[1]), 13 * 11 + 9);
    let quotient = Gate::Divider { bits: 4 }.eval(&[word(3, 4), word(5, 4), word(2, 4)]);
    assert_eq!(number(&quotient[0]), 35 / 5);
    assert_eq!(number(&quotient[1]), 35 % 5);
    let by_zero = Gate::Divider { bits: 4 }.eval(&[word(7, 4), word(0, 4), word(0, 4)]);
    assert_eq!(number(&by_zero[0]), 7);
    assert_eq!(number(&by_zero[1]), 0);
}

#[test]
fn comparator_has_exactly_one_true_output() {
    for signed in [false, true] {
        for a in 0..8u32 {
            for b in 0..8u32 {
                let out = Gate::Comparator { bits: 3, signed }.eval(&[word(a, 3), word(b, 3)]);
                let (x, y) = if signed {
                    let low = |v: u32| if v >= 4 { v as i32 - 8 } else { v as i32 };
                    (low(a), low(b))
                } else {
                    (a as i32, b as i32)
                };
                let want = [x > y, x == y, x < y];
                for k in 0..3 {
                    assert_eq!(out[k][0] == Bit::One, want[k]);
                    assert_eq!(out[k][0] == Bit::Zero, !want[k]);
                }
            }
        }
    }
}

#[test]
fn clock_repeats_after_one_period() {
    let mut a = Gate::Clock { high: 2, low: 3, clicks: 0, sending: Bit::Zero };
    let mut b = a.clone();
    for t in 1..12u64 {
        a.tick(t);
        b.tick(t + 5);
        assert_eq!(a.eval(&[]), b.eval(&[]));
    }
}

#[test]
fn toggling_a_clock_inverts_it_from_then_on() {
    let plain = Gate::Clock { high: 1, low: 2, clicks: 0, sending: Bit::Zero };
    let mut toggled = plain.clone();
    toggled.invoke("toggle", None).unwrap();
    for t in 1..8u64 {
        let mut a = plain.clone();
        let mut b = toggled.clone();
        a.tick(t);
        b.tick(t);
        assert_eq!(b.eval(&[])[0][0], a.eval(&[])[0][0].not());
    }
}

#[test]
fn ram_write_reaches_one_cell_only() {
    let mut ram = Gate::Ram {
        addr_bits: 2,
        data_bits: 4,
        bus: RamBus::Separate,
        contents: vec![1, 2, 3, 4],
        last_clock: Bit::Zero,
        held_data: vec![Bit::Unknown; 4],
    };
    let ins = |addr: u32, clk: Bit, we: Bit, din: u32| {
        vec![
            word(addr, 2),
            one(Bit::One),
            one(Bit::One),
            one(Bit::Zero),
            one(clk),
            one(we),
            word(din, 4),
        ]
    };
    ram.eval(&ins(2, Bit::One, Bit::One, 12));
    assert_eq!(ram.eval(&ins(2, Bit::Zero, Bit::Zero, 0))[0], word(12, 4));
    for (addr, want) in [(0, 1), (1, 2), (3, 4)] {
        assert_eq!(ram.eval(&ins(addr, Bit::Zero, Bit::Zero, 0))[0], word(want, 4));
    }
}

#[test]
fn demultiplexer_undoes_multiplexer() {
    let mut mux = Gate::Mux { bits: 3, select_bits: 2, has_enable: false, disabled_zero: false };
    let mut demux = Gate::Demux {
        bits: 3,
        select_bits: 2,
        has_enable: false,
        disabled_zero: false,
        tristate: true,
    };
    for k in 0..4u32 {
        let mut ins: Vec<Signal> = (0..4).map(|i| word(i + 1, 3)).collect();
        ins.push(word(k, 2));
        let routed = mux.eval(&ins);
        let back = demux.eval(&[word(k, 2), routed[0].clone()]);
        for i in 0..4u32 {
            let want = if i == k { word(i + 1, 3) } else { vec![Bit::Unknown; 3] };
            assert_eq!(back[i as usize], want);
        }
    }
}

#[test]
fn extending_keeps_numbers() {
    let mut zero = Gate::BitExtender { in_bits: 3, out_bits: 6, mode: ExtendMode::Zero };
    let mut sign = Gate::BitExtender { in_bits: 3, out_bits: 6, mode: ExtendMode::Sign };
    for v in 0..8u32 {
        assert_eq!(number(&zero.eval(&[word(v, 3)])[0]), v);
        let wide = number(&sign.eval(&[word(v, 3)])[0]);
        assert_eq!(wide, if v >= 4 { v + 56 } else { v });
    }
}

#[test]
fn input_pin_wraps_numbers_to_its_width() {
    let mut pin = Gate::InputPin { bits: 3, value: vec![Bit::Zero; 3] };
    pin.invoke("set", Some(Value::Int(13))).unwrap();
    assert_eq!(pin.read("get"), Ok(Value::Bits(word(5, 3))));
    assert_eq!(pin.eval(&[]), vec![word(5, 3)]);
}

#[test]
fn a_one_bit_pin_takes_every_number_but_zero_as_one() {
    let mut pin = Gate::InputPin { bits: 1, value: vec![Bit::Zero] };
    for (i, want) in [(2, Bit::One), (0, Bit::Zero), (-4, Bit::One), (1, Bit::One)] {
        assert_eq!(pin.invoke("set", Some(Value::Int(i))), Ok(()));
        assert_eq!(pin, Gate::InputPin { bits: 1, value: vec![want] });
    }
}

#[test]
fn keyboard_gives_characters_in_order() {
    let mut keyboard = Gate::Keyboard {
        capacity: 2,
        trigger: Trigger::Rising,
        last_clock: Bit::Unknown,
        buffer: Vec::new(),
        cursor: 0,
    };
    for c in ['a', '\u{1F600}', 'z'] {
        keyboard.invoke("key", Some(Value::Int(c as i64))).unwrap();
    }
    let ins = |ck: Bit| vec![one(Bit::Zero), one(ck), one(Bit::One)];
    assert_eq!(keyboard.read("len"), Ok(Value::Int(2)));
    assert_eq!(keyboard.eval(&ins(Bit::Zero)), vec![one(Bit::One), char_bits('a')]);
    keyboard.eval(&ins(Bit::One));
    assert_eq!(keyboard.read("get"), Ok(Value::Bits(char_bits('\u{1F600}'))));
    assert_eq!(char_bits('a'), word(97, 7));
}

#[test]
fn keyboard_refuses_what_is_no_character() {
    let mut keyboard = Gate::Keyboard {
        capacity: 2,
        trigger: Trigger::Rising,
        last_clock: Bit::Unknown,
        buffer: Vec::new(),
        cursor: 0,
    };
    for code in [0xD800i64, 0xDFFF, 0x110000] {
        assert_eq!(
            keyboard.invoke("key", Some(Value::Int(code))),
            Err(ActionError::InvalidArg {
                action: "key".to_string(),
                reason: format!("not a valid char code: {code}"),
            })
        );
    }
    assert_eq!(keyboard.read("len"), Ok(Value::Int(0)));
    keyboard.invoke("key", Some(Value::Int(0xD7FF))).unwrap();
    keyboard.invoke("key", Some(Value::Int(0x10FFFF))).unwrap();
    assert_eq!(keyboard.read("len"), Ok(Value::Int(2)));
}

#[test]
fn terminal_scrolls_its_rows() {
    let mut tty = Gate::Tty {
        cols: 4,
        rows: 2,
        trigger: Trigger::Rising,
        last_clock: Bit::Unknown,
        row_data: vec![Vec::new()],
        last_row: Vec::new(),
        row: 0,
    };
    for c in "ab\ncd\nef".chars() {
        for ck in [Bit::Zero, Bit::One] {
            tty.eval(&[one(Bit::Zero), one(ck), one(Bit::One), char_bits(c)]);
        }
    }
    let text = |s: &str| Value::Bits(s.chars().flat_map(char_bits).collect());
    assert_eq!(tty.read("row0"), Ok(text("cd")));
    assert_eq!(tty.read("row1"), Ok(text("ef")));
    assert_eq!(tty.read("row9"), Ok(text("")));
    assert_eq!(tty.read("cursor_row"), Ok(Value::Int(1)));
    assert_eq!(tty.read("cursor_col"), Ok(Value::Int(2)));
    assert_eq!(tty.read("rowx"), Err(ReadoutError::UnknownReadout("rowx".to_string())));
}

#[test]
fn refused_actions_leave_gates_alone() {
    for gate in sample_gates() {
        let mut g = gate.clone();
        assert_eq!(
            g.invoke("explode", None),
            Err(ActionError::UnknownAction("explode".to_string()))
        );
        assert_eq!(g, gate);
        assert_eq!(
            g.read("explode"),
            Err(ReadoutError::UnknownReadout("explode".to_string()))
        );
    }
}

#[test]
fn register_says_what_it_was_given() {
    let mut register =
        Gate::Register { bits: 4, trigger: Trigger::Rising, value: 0, last_clock: Bit::Zero };
    assert_eq!(
        register.invoke("set", Some(Value::Bits(vec![Bit::One, Bit::Error]))),
        Err(ActionError::InvalidArg {
            action: "set".to_string(),
            reason: "expected Int, got Some(Bits([One, Error]))".to_string(),
        })
    );
    register.invoke("set", Some(Value::Int(-1))).unwrap();
    assert_eq!(register.read("get"), Ok(Value::Bits(word(15, 4))));
}

#[test]
fn errors_read_as_text() {
    assert_eq!(ActionError::UnknownAction("a\"b".to_string()).to_text(), "UnknownAction(\"a\\\"b\")");
    assert_eq!(
        ActionError::InvalidArg { action: "set".to_string(), reason: "tab\t".to_string() }.to_text(),
        "InvalidArg { action: \"set\", reason: \"tab\\t\" }"
    );
    assert_eq!(
        ReadoutError::UnknownReadout("get".to_string()).to_text(),
        "UnknownReadout(\"get\")"
    );
    for value in [
        Value::Bool(true),
        Value::Bool(false),
        Value::Int(i64::MIN),
        Value::Int(0),
        Value::Bits(vec![]),
        Value::Bits(ALL_BITS.to_vec()),
    ] {
        assert_eq!(value.to_text(), format!("{value:?}"));
        assert_eq!(render_arg(&Some(value.clone())), format!("{:?}", Some(value)));
    }
    assert_eq!(render_arg(&None), "None");
}

#[test]
fn an_undefined_operand_bit_poisons_the_sum_from_there_up() {
    let mut a = word(5, 4);
    a[2] = Bit::Unknown;
    let out = Gate::Adder { bits: 4 }.eval(&[a, word(1, 4), word(0, 1)]);
    assert_eq!(out[0], vec![Bit::Zero, Bit::One, Bit::Unknown, Bit::Unknown]);
    assert_eq!(out[1], one(Bit::Unknown));
}

#[test]
fn a_clear_wins_over_a_clock_edge() {
    let mut register =
        Gate::Register { bits: 3, trigger: Trigger::Rising, value: 5, last_clock: Bit::Zero };
    let out = register.eval(&[word(6, 3), one(Bit::One), one(Bit::One), one(Bit::One)]);
    assert_eq!(out, vec![word(0, 3)]);
}

#[test]
fn a_partly_known_word_is_not_latched() {
    let mut register =
        Gate::Register { bits: 2, trigger: Trigger::Rising, value: 2, last_clock: Bit::Zero };
    let d = vec![Bit::One, Bit::Error];
    let out = register.eval(&[d, one(Bit::One), one(Bit::Zero), one(Bit::One)]);
    assert_eq!(out, vec![word(2, 2)]);
}

#[test]
fn sources_do_not_change_in_evaluations() {
    for gate in [
        Gate::Constant { bits: 3, value: 5 },
        Gate::InputPin { bits: 2, value: vec![Bit::One, Bit::Zero] },
        Gate::PullResistor { to: Bit::Error },
        Gate::Clock { high: 1, low: 1, clicks: 0, sending: Bit::One },
    ] {
        let mut g = gate.clone();
        let out = g.eval(&[]);
        assert_eq!(g.eval(&[one(Bit::Zero)]), out);
        assert_eq!(g, gate);
    }
}

#[test]
fn a_digit_that_is_not_known_shows_a_dash() {
    let mut digit = Gate::HexDigit { value: word(0, 8) };
    digit.eval(&[vec![Bit::One, Bit::Unknown, Bit::Zero, Bit::Zero], one(Bit::Zero)]);
    assert_eq!(digit.read("get"), Ok(Value::Bits(word(0b0100_0000, 8))));
}

#[test]
fn low_sum_bits_do_not_depend_on_higher_operand_bits() {
    let low = Gate::Adder { bits: 4 }.eval(&[word(3, 4), word(2, 4), word(1, 1)]);
    for high in ALL_BITS {
        let mut a = word(3, 4);
        a[3] = high;
        let out = Gate::Adder { bits: 4 }.eval(&[a, word(2, 4), word(1, 1)]);
        assert_eq!(out[0][..3], low[0][..3]);
    }
}

#[test]
fn sixteen_digits_look_different() {
    let mut seen = vec![word(0b0100_0000, 8)];
    for v in 0..16u32 {
        let mut digit = Gate::HexDigit { value: word(0, 8) };
        digit.eval(&[word(v, 4), one(Bit::Unknown)]);
        let Gate::HexDigit { value } = digit else { unreachable!() };
        assert_eq!(value[7], Bit::Zero);
        assert!(!seen.contains(&value));
        seen.push(value);
    }
    assert_eq!(number(&seen[1]), 0x3f);
    assert_eq!(number(&seen[2]), 0x06);
    assert_eq!(number(&seen[9]), 0x7f);
}

#[test]
fn typing_stays_within_the_terminal() {
    let mut tty = Gate::Tty {
        cols: 2,
        rows: 2,
        trigger: Trigger::Rising,
        last_clock: Bit::Unknown,
        row_data: vec![Vec::new()],
        last_row: Vec::new(),
        row: 0,
    };
    let mut type_char = |c: char| {
        for ck in [Bit::Zero, Bit::One] {
            tty.eval(&[one(Bit::Zero), one(ck), one(Bit::One), char_bits(c)]);
        }
        match &tty {
            Gate::Tty { row_data, last_row, row, .. } => {
                (row_data[0].clone(), last_row.clone(), *row)
            }
            other => panic!("unexpected gate {other:?}"),
        }
    };
    assert_eq!(type_char('a'), (vec![], vec!['a'], 0));
    assert_eq!(type_char('b'), (vec![], vec!['a', 'b'], 0));
    assert_eq!(type_char('c'), (vec!['a', 'b'], vec!['c'], 1));
    assert_eq!(type_char('\u{7}'), (vec!['a', 'b'], vec!['c'], 1));
    assert_eq!(type_char('\u{8}'), (vec!['a', 'b'], vec![], 1));
    assert_eq!(type_char('\u{8}'), (vec!['a', 'b'], vec![], 1));
    assert_eq!(type_char('\u{c}'), (vec![], vec![], 0));
}

#[test]
fn ticks_leave_other_gates_alone() {
    let mut gate = Gate::Constant { bits: 40, value: 7 };
    assert!(!gate.tick(3));
    assert_eq!(gate, Gate::Constant { bits: 40, value: 7 });
}
