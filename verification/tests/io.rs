use engine::components::io::char_bits;
use engine::components::{DotMatrixInput, Gate, Trigger};
use engine::plugin_abi::{Bit, Component, Signal, Value};

fn zeros(n: u8) -> Signal {
    vec![Bit::Zero; n as usize]
}

fn dot_matrix(rows: u8, cols: u8, input: DotMatrixInput) -> Gate {
    Gate::DotMatrix { rows, cols, input, grid: vec![Bit::Unknown; rows as usize * cols as usize] }
}

fn tty(cols: u8, rows: u8) -> Gate {
    Gate::Tty { cols, rows, trigger: Trigger::Rising, last_clock: Bit::Unknown, row_data: vec![Vec::new(); rows as usize - 1], last_row: Vec::new(), row: 0 }
}

fn keyboard(capacity: u16) -> Gate {
    Gate::Keyboard { capacity, trigger: Trigger::Rising, last_clock: Bit::Unknown, buffer: Vec::new(), cursor: 0 }
}

fn get_bits(g: &Gate, name: &str) -> Vec<Bit> {
    match g.read(name).unwrap() {
        Value::Bits(bits) => bits,
        other => panic!("unexpected readout {other:?}"),
    }
}

#[test]
fn dot_matrix_column_mode_lsb_is_the_bottom_row() {
    let mut g = dot_matrix(3, 1, DotMatrixInput::Column);
    g.eval(&[vec![Bit::Zero, Bit::Zero, Bit::One]]);
    assert_eq!(get_bits(&g, "get"), vec![Bit::One, Bit::Zero, Bit::Zero], "row 0 (top) = MSB = One, row 2 (bottom) = LSB = Zero");
}

#[test]
fn dot_matrix_row_mode_lsb_is_the_rightmost_column() {
    let mut g = dot_matrix(1, 3, DotMatrixInput::Row);
    g.eval(&[vec![Bit::Zero, Bit::Zero, Bit::One]]);
    assert_eq!(get_bits(&g, "get"), vec![Bit::One, Bit::Zero, Bit::Zero], "col 0 (left) = MSB = One, col 2 (right) = LSB = Zero");
}

#[test]
fn dot_matrix_select_mode_row0_is_msb_of_row_select_col_data_lsb_is_leftmost() {
    let mut g = dot_matrix(2, 3, DotMatrixInput::Select);

    g.eval(&[vec![Bit::One, Bit::Zero, Bit::One], vec![Bit::Zero, Bit::One]]);
    assert_eq!(get_bits(&g, "get"), vec![Bit::One, Bit::Zero, Bit::One, Bit::Zero, Bit::Zero, Bit::Zero]);
}

#[test]
fn dot_matrix_select_mode_undefined_row_select_bit_errors_the_whole_row() {
    let mut g = dot_matrix(1, 2, DotMatrixInput::Select);
    g.eval(&[vec![Bit::One, Bit::Zero], vec![Bit::Unknown]]);
    assert_eq!(get_bits(&g, "get"), vec![Bit::Error, Bit::Error]);
}

#[test]
fn tty_commits_a_row_on_newline_and_starts_the_next() {
    let mut g = tty(8, 3);
    for c in "hi\n".chars() {
        g.eval(&[zeros(1), zeros(1), vec![Bit::One], char_bits(c)]);
        g.eval(&[zeros(1), vec![Bit::One], vec![Bit::One], char_bits(c)]);
        g.eval(&[zeros(1), zeros(1), vec![Bit::One], char_bits(c)]);
    }
    assert_eq!(g.read("row0").unwrap(), Value::Bits(chars_bits("hi")));
    assert_eq!(g.read("cursor_row").unwrap(), Value::Int(1));
    assert_eq!(g.read("cursor_col").unwrap(), Value::Int(0));
}

fn chars_bits(s: &str) -> Signal {
    s.chars().flat_map(char_bits).collect()
}

#[test]
fn tty_ignores_clock_edges_while_write_enable_is_low() {
    let mut g = tty(8, 3);
    g.eval(&[zeros(1), zeros(1), zeros(1), char_bits('x')]);
    g.eval(&[zeros(1), vec![Bit::One], zeros(1), char_bits('x')]);
    assert_eq!(g.read("cursor_col").unwrap(), Value::Int(0));
}

#[test]
fn tty_clear_resets_everything() {
    let mut g = tty(8, 3);
    g.eval(&[zeros(1), zeros(1), vec![Bit::One], char_bits('x')]);
    g.eval(&[zeros(1), vec![Bit::One], vec![Bit::One], char_bits('x')]);
    assert_eq!(g.read("cursor_col").unwrap(), Value::Int(1));
    g.eval(&[vec![Bit::One], vec![Bit::One], vec![Bit::One], char_bits('x')]);
    assert_eq!(g.read("cursor_col").unwrap(), Value::Int(0));
}

#[test]
fn keyboard_key_then_dequeue_on_clock_edge() {
    let mut g = keyboard(8);
    g.invoke("key", Some(Value::Int('A' as i64))).unwrap();
    g.invoke("key", Some(Value::Int('B' as i64))).unwrap();

    let out = g.eval(&[zeros(1), zeros(1), zeros(1)]);
    assert_eq!(out[0], vec![Bit::One], "avl: a character is ready");
    assert_eq!(out[1], char_bits('A'));

    let out = g.eval(&[zeros(1), vec![Bit::One], vec![Bit::One]]);
    assert_eq!(out[1], char_bits('B'), "dequeued 'A', 'B' now at the front");
}

#[test]
fn keyboard_insert_past_capacity_is_a_no_op() {
    let mut g = keyboard(1);
    g.invoke("key", Some(Value::Int('A' as i64))).unwrap();
    g.invoke("key", Some(Value::Int('B' as i64))).unwrap();
    assert_eq!(g.read("len").unwrap(), Value::Int(1));
    assert_eq!(g.read("get").unwrap(), Value::Bits(char_bits('A')));
}

#[test]
fn keyboard_empty_queue_reports_not_available() {
    let g = keyboard(8);
    assert_eq!(g.read("avail").unwrap(), Value::Bool(false));
    assert_eq!(g.read("get").unwrap(), Value::Bits(char_bits('\0')));
}
