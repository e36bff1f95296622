//! What pins, displays, terminals and keyboards do: what an evaluation, an action or a readout
//! gives, device by device.
use vstd::prelude::*;
use vstd::arithmetic::power2;
use super::{io, memory, signal, state, DotMatrixInput, ExtendMode, GateView, Trigger};
use crate::plugin_abi::{ActionErrorView, Bit, ValueView};
use crate::text;

verus! {

/// A constant drives the binary digits of its value, a pull resistor its level, and an input pin
/// what it was set to. An output pin holds what it reads, bit by bit, and drives nothing.
pub proof fn sources_and_sinks(bits: u8, value: u32, level: Bit, set: Seq<Bit>, ins: Seq<Seq<Bit>>)
    requires
        ins.len() >= 1,
    ensures
        ({
            let constant = GateView::Constant { bits, value };
            let pull = GateView::PullResistor { to: level };
            let input = GateView::InputPin { bits, value: set };
            let output = GateView::OutputPin { bits, value: set };
            &&& constant.eval(ins) == (constant, seq![signal::bits_of(value as int, bits as nat)])
            &&& pull.eval(ins) == (pull, seq![seq![level]])
            &&& input.eval(ins) == (input, seq![set])
            &&& input.read("get"@) == Ok::<ValueView, Seq<char>>(ValueView::Bits(set))
            &&& output.read("get"@) == Ok::<ValueView, Seq<char>>(ValueView::Bits(set))
            &&& output.eval(ins).1.len() == 0
            &&& output.eval(ins).0 matches GateView::OutputPin { bits: b, value: v } && b == bits
                && v.len() == bits && forall|i: int|
                0 <= i < bits ==> #[trigger] v[i] == signal::bit_of(ins[0], i)
        }),
{
}

/// A bit extender hands its input on and fills up with zeros, with ones, with the top bit of its
/// input, or with what its second pin reads. Where it has fewer outputs than inputs it cuts off.
pub proof fn extenders_fill_up(in_bits: u8, out_bits: u8, ins: Seq<Seq<Bit>>, i: int)
    requires
        1 <= in_bits,
        0 <= i < out_bits,
        ins.len() >= 2,
    ensures
        ({
            let zero = (GateView::BitExtender { in_bits, out_bits, mode: ExtendMode::Zero }).eval(
                ins,
            ).1;
            let one = (GateView::BitExtender { in_bits, out_bits, mode: ExtendMode::One }).eval(
                ins,
            ).1;
            let sign = (GateView::BitExtender { in_bits, out_bits, mode: ExtendMode::Sign }).eval(
                ins,
            ).1;
            let input = (GateView::BitExtender { in_bits, out_bits, mode: ExtendMode::Input }).eval(
                ins,
            ).1;
            let b = signal::bit_of(ins[0], i);
            &&& zero.len() == 1 && one.len() == 1 && sign.len() == 1 && input.len() == 1
            &&& zero[0].len() == out_bits && one[0].len() == out_bits
            &&& sign[0].len() == out_bits && input[0].len() == out_bits
            &&& i < in_bits ==> zero[0][i] == b && one[0][i] == b && sign[0][i] == b && input[0][i]
                == b
            &&& i >= in_bits ==> zero[0][i] == Bit::Zero && one[0][i] == Bit::One && sign[0][i]
                == signal::bit_of(ins[0], in_bits - 1) && input[0][i] == signal::bit_of(ins[1], 0)
        }),
{
}

/// A transistor hands its input on while its second pin reads the level that it conducts on,
/// drives nothing while that reads the other level, and with an undefined pin errs on every bit
/// of its input that is driven.
pub proof fn transistors_conduct(bits: u8, conducts_on: Bit, ins: Seq<Seq<Bit>>, i: int)
    requires
        0 <= i < bits,
        ins.len() >= 2,
        conducts_on == Bit::Zero || conducts_on == Bit::One,
    ensures
        ({
            let out = (GateView::Transistor { bits, conducts_on }).eval(ins).1;
            let c = signal::bit_of(ins[1], 0);
            let b = signal::bit_of(ins[0], i);
            &&& out.len() == 1 && out[0].len() == bits
            &&& c == conducts_on ==> out[0][i] == b
            &&& (c == Bit::Zero || c == Bit::One) && c != conducts_on ==> out[0][i] == Bit::Unknown
            &&& c == Bit::Unknown || c == Bit::Error ==> out[0][i] == (if b == Bit::Unknown {
                Bit::Unknown
            } else {
                Bit::Error
            })
        }),
{
}

/// A seven-segment display is lit as the digit is written: the segments are numbered clockwise
/// from the top, the middle one comes last, and the dot is lit where its pin reads `One`.
pub proof fn hex_digits_are_drawn(value: Seq<Bit>, ins: Seq<Seq<Bit>>, i: int)
    requires
        ins.len() >= 2,
        signal::defined(ins[0], 4),
        0 <= i < 7,
    ensures
        ({
            let v = signal::value_of(ins[0], 4);
            let segments = if v == 0 {
                set![0int, 1, 2, 3, 4, 5]
            } else if v == 1 {
                set![1int, 2]
            } else if v == 2 {
                set![0int, 1, 3, 4, 6]
            } else if v == 3 {
                set![0int, 1, 2, 3, 6]
            } else if v == 4 {
                set![1int, 2, 5, 6]
            } else if v == 5 {
                set![0int, 2, 3, 5, 6]
            } else if v == 6 {
                set![0int, 2, 3, 4, 5, 6]
            } else if v == 7 {
                set![0int, 1, 2]
            } else if v == 8 {
                set![0int, 1, 2, 3, 4, 5, 6]
            } else if v == 9 {
                set![0int, 1, 2, 5, 6]
            } else if v == 10 {
                set![0int, 1, 2, 4, 5, 6]
            } else if v == 11 {
                set![2int, 3, 4, 5, 6]
            } else if v == 12 {
                set![0int, 3, 4, 5]
            } else if v == 13 {
                set![1int, 2, 3, 4, 6]
            } else if v == 14 {
                set![0int, 3, 4, 5, 6]
            } else {
                set![0int, 4, 5, 6]
            };
            let (after, out) = (GateView::HexDigit { value }).eval(ins);
            &&& out.len() == 0
            &&& after matches GateView::HexDigit { value: shown } && shown.len() == 8 && (shown[i]
                == Bit::One <==> segments.contains(i)) && (shown[i] == Bit::Zero
                <==> !segments.contains(i)) && shown[7] == (if signal::bit_of(ins[1], 0)
                == Bit::One {
                Bit::One
            } else {
                Bit::Zero
            }) && after.read("get"@) == Ok::<ValueView, Seq<char>>(ValueView::Bits(shown))
        }),
{
}

/// An input pin takes a number's binary digits, a one-bit pin `One` for every number but zero and
/// `One` for `true`, and any pin a signal of its own width. It takes nothing else.
pub proof fn input_pins_are_set(
    bits: u8,
    value: Seq<Bit>,
    i: i64,
    b: bool,
    s: Seq<Bit>,
)
    requires
        bits > 0,
    ensures
        ({
            let g = GateView::InputPin { bits, value };
            let by_number = g.invoke("set"@, Some(ValueView::Int(i)));
            let by_truth = g.invoke("set"@, Some(ValueView::Bool(b)));
            let by_signal = g.invoke("set"@, Some(ValueView::Bits(s)));
            &&& by_number.1 is Ok
            &&& bits > 1 ==> by_number.0 == (GateView::InputPin {
                bits,
                value: signal::bits_of(i as int, bits as nat),
            })
            &&& bits == 1 ==> by_number.0 == (GateView::InputPin {
                bits,
                value: if i == 0 {
                    seq![Bit::Zero]
                } else {
                    seq![Bit::One]
                },
            })
            &&& bits == 1 ==> by_truth == (
                (GateView::InputPin {
                    bits,
                    value: if b {
                        seq![Bit::One]
                    } else {
                        seq![Bit::Zero]
                    },
                }),
                Ok::<(), ActionErrorView>(()),
            )
            &&& bits > 1 ==> by_truth.0 == g && by_truth.1 is Err
            &&& s.len() == bits ==> by_signal == (
                (GateView::InputPin { bits, value: s }),
                Ok::<(), ActionErrorView>(()),
            )
            &&& s.len() != bits ==> by_signal.0 == g && by_signal.1 is Err
            &&& g.invoke("set"@, None).0 == g && g.invoke("set"@, None).1 is Err
        }),
{
    pin_actions_differ();
    let zero_or_one = if i != 0 {
        Bit::One
    } else {
        Bit::Zero
    };
    let truth = if b {
        Bit::One
    } else {
        Bit::Zero
    };
    assert(seq![zero_or_one] =~= (if i == 0 {
        seq![Bit::Zero]
    } else {
        seq![Bit::One]
    }));
    assert(seq![truth] =~= (if b {
        seq![Bit::One]
    } else {
        seq![Bit::Zero]
    }));
}

/// The names of a pin's actions are different ones.
proof fn pin_actions_differ()
    ensures
        "set"@ != "on"@,
        "set"@ != "off"@,
        "set"@ != "toggle"@,
        "on"@ != "off"@,
        "on"@ != "toggle"@,
        "off"@ != "toggle"@,
{
    reveal_strlit("set");
    reveal_strlit("on");
    reveal_strlit("off");
    reveal_strlit("toggle");
    assert("set"@[0] != "off"@[0]);
    assert("on"@.len() == 2 && "off"@.len() == 3 && "toggle"@.len() == 6);
}

/// A one-bit input pin is switched on, off and over. A wider one has no such actions, and no pin
/// has others.
pub proof fn input_pins_are_switched(
    bits: u8,
    value: Seq<Bit>,
    name: Seq<char>,
    arg: Option<ValueView>,
)
    requires
        value.len() == bits,
        bits > 0,
    ensures
        ({
            let g = GateView::InputPin { bits, value };
            let unknown = (g, Err::<(), ActionErrorView>(ActionErrorView::UnknownAction(name)));
            let switch = name == "on"@ || name == "off"@ || name == "toggle"@;
            &&& bits == 1 && name == "on"@ ==> g.invoke(name, arg) == (
                (GateView::InputPin { bits, value: seq![Bit::One] }),
                Ok::<(), ActionErrorView>(()),
            )
            &&& bits == 1 && name == "off"@ ==> g.invoke(name, arg) == (
                (GateView::InputPin { bits, value: seq![Bit::Zero] }),
                Ok::<(), ActionErrorView>(()),
            )
            &&& bits == 1 && name == "toggle"@ ==> g.invoke(name, arg) == (
                (GateView::InputPin {
                    bits,
                    value: if value[0] == Bit::One {
                        seq![Bit::Zero]
                    } else {
                        seq![Bit::One]
                    },
                }),
                Ok::<(), ActionErrorView>(()),
            )
            &&& bits > 1 && switch ==> g.invoke(name, arg) == unknown
            &&& !switch && name != "set"@ ==> g.invoke(name, arg) == unknown
        }),
{
    pin_actions_differ();
    if bits == 1 {
        let switched = if value[0] == Bit::One {
            Bit::Zero
        } else {
            Bit::One
        };
        assert(seq![switched] =~= (if value[0] == Bit::One {
            seq![Bit::Zero]
        } else {
            seq![Bit::One]
        }));
    }
}

/// The light in row `r` and column `c` of a dot matrix. Driven by columns, it reads the bit of
/// its column's pin counted from the bottom row up; driven by rows, the bit of its row's pin
/// counted from the last column back; driven by selection, its column's bit of the first pin
/// where its row's bit of the second reads `One`, `Zero` where that does, and an error else.
pub proof fn dot_matrices_are_lit(
    rows: u8,
    cols: u8,
    grid: Seq<Bit>,
    ins: Seq<Seq<Bit>>,
    r: int,
    c: int,
)
    requires
        grid.len() == rows * cols,
        0 <= r < rows,
        0 <= c < cols,
    ensures
        ({
            let by_column = (GateView::DotMatrix {
                rows,
                cols,
                input: DotMatrixInput::Column,
                grid,
            }).eval(ins).0;
            let by_row = (GateView::DotMatrix { rows, cols, input: DotMatrixInput::Row, grid }).eval(
                ins,
            ).0;
            let by_choice = (GateView::DotMatrix {
                rows,
                cols,
                input: DotMatrixInput::Select,
                grid,
            }).eval(ins).0;
            let k = r * cols + c;
            &&& 0 <= k < grid.len()
            &&& ins.len() == cols ==> (by_column matches GateView::DotMatrix { grid: after, .. }
                && after.len() == grid.len() && after[k] == signal::bit_of(ins[c], rows - 1 - r))
            &&& ins.len() == rows ==> (by_row matches GateView::DotMatrix { grid: after, .. }
                && after.len() == grid.len() && after[k] == signal::bit_of(ins[r], cols - 1 - c))
            &&& ins.len() == 2 ==> (by_choice matches GateView::DotMatrix { grid: after, .. }
                && after.len() == grid.len() && after[k] == (if signal::bit_of(
                ins[1],
                rows - 1 - r,
            ) == Bit::One {
                signal::bit_of(ins[0], c)
            } else if signal::bit_of(ins[1], rows - 1 - r) == Bit::Zero {
                Bit::Zero
            } else {
                Bit::Error
            }))
        }),
{
    let k = r * cols + c;
    assert(0 <= k < rows * cols) by (nonlinear_arith)
        requires
            0 <= r < rows,
            0 <= c < cols,
            k == r * cols + c,
    ;
    vstd::arithmetic::div_mod::lemma_fundamental_div_mod_converse(k, cols as int, r, c);
}

/// The clock did what a trigger waits for, by the levels before and now.
pub open spec fn is_awaited(trigger: Trigger, before: Bit, now: Bit) -> bool {
    ||| trigger == Trigger::Rising && before == Bit::Zero && now == Bit::One
    ||| trigger == Trigger::Falling && before == Bit::One && now == Bit::Zero
    ||| trigger == Trigger::High && now == Bit::One
    ||| trigger == Trigger::Low && now == Bit::Zero
}

/// A clear empties a terminal. Otherwise, while it is not disabled by a `Zero` and its clock does
/// what it waits for, it takes the character whose code its data pin reads, a question mark where
/// that is undefined: it goes at the end of the last row, or, where that is full, begins a new
/// one. Whatever else happens leaves the text as it is.
pub proof fn terminals_take_characters(
    cols: u8,
    rows: u8,
    trigger: Trigger,
    before: Bit,
    row_data: Seq<Seq<char>>,
    last_row: Seq<char>,
    row: usize,
    ins: Seq<Seq<Bit>>,
)
    requires
        ins.len() >= 4,
        last_row.len() <= cols,
        cols >= 1,
        row_data.len() == rows - 1,
        row < rows,
    ensures
        ({
            let g = GateView::Tty { cols, rows, trigger, last_clock: before, row_data, last_row, row };
            let (after, out) = g.eval(ins);
            let now = signal::bit_of(ins[1], 0);
            let clear = signal::bit_of(ins[0], 0) == Bit::One;
            let types = !clear && signal::bit_of(ins[2], 0) != Bit::Zero && is_awaited(
                trigger,
                before,
                now,
            );
            let c = if signal::defined(ins[3], 7) {
                signal::value_of(ins[3], 7) as char
            } else {
                '?'
            };
            let printable = 0x20 <= c as u32 && c as u32 != 0x7F;
            let breaks = types && (c == '\n' || c == '\r');
            &&& out.len() == 0
            &&& after matches GateView::Tty {
                cols: c2,
                rows: r2,
                trigger: t2,
                last_clock: k2,
                row_data: data,
                last_row: last,
                row: at,
            } && ({
                &&& c2 == cols && r2 == rows && t2 == trigger && k2 == now
                &&& data.len() == row_data.len()
                &&& clear || (types && c == '\u{c}') ==> at == 0 && last.len() == 0 && forall|
                    i: int,
                |
                    0 <= i < data.len() ==> (#[trigger] data[i]).len() == 0
                &&& !clear && !types ==> data == row_data && last == last_row && at == row
                &&& types && c == '\u{8}' ==> data == row_data && at == row && last == (
                if last_row.len() == 0 {
                    last_row
                } else {
                    last_row.take(last_row.len() - 1)
                })
                &&& types && printable && last_row.len() < cols ==> data == row_data && at == row
                    && last == last_row.push(c)
                &&& breaks || (types && printable && last_row.len() == cols) ==> {
                    &&& last == (if breaks {
                        Seq::empty()
                    } else {
                        seq![c]
                    })
                    &&& row < row_data.len() ==> at == row + 1 && data[row as int] == last_row
                        && forall|i: int|
                        0 <= i < data.len() && i != row ==> #[trigger] data[i] == row_data[i]
                    &&& row == row_data.len() ==> at == row && forall|i: int|
                        0 <= i < data.len() ==> #[trigger] data[i] == (if i + 1 < data.len() {
                            row_data[i + 1]
                        } else {
                            last_row
                        })
                }
            })
        }),
{
    assert(memory::fires(trigger, before, signal::bit_of(ins[1], 0)) <==> is_awaited(
        trigger,
        before,
        signal::bit_of(ins[1], 0),
    ));
    signal::value_bound(ins[3], 7);
    power2::lemma2_to64();
    vstd::arithmetic::div_mod::lemma_small_mod(last_row.len(), 256);
    let c = if signal::defined(ins[3], 7) {
        signal::value_of(ins[3], 7) as char
    } else {
        '?'
    };
    assert(Seq::<char>::empty().push(c) =~= seq![c]);
    if last_row.len() > 0 {
        assert(last_row.drop_last() =~= last_row.take(last_row.len() - 1));
    }
    let t = io::TtyText { rows: row_data, last: last_row, row };
    let typed = t.typed(cols, c);
    assert(io::typed_char(ins[3]) == c);
    assert(c as u32 <= 0x7F);
    let full = t.committed();
    if row < row_data.len() {
        assert(full.rows == row_data.update(row as int, last_row));
    } else if row_data.len() > 0 {
        assert(full.rows =~= row_data.skip(1).push(last_row));
    }
    assert(io::is_control(c) <==> c as u32 <= 0x1F || c as u32 == 0x7F);
    if last_row.len() == cols && !io::is_control(c) {
        assert(typed.last =~= seq![c]);
        assert(typed.rows == full.rows && typed.row == full.row);
    }
    if last_row.len() < cols && !io::is_control(c) {
        assert(typed.last == last_row.push(c) && typed.rows == row_data && typed.row == row);
    }
    if c == '\n' || c == '\r' {
        assert(typed == full);
    }
    if c == '\u{8}' {
        assert(typed.rows == row_data && typed.row == row);
    }
}

/// A clear empties a keyboard's buffer. Otherwise, while it is not disabled by a `Zero` and its
/// clock does what it waits for, the first character leaves. It outputs the code of the first
/// character that is left and says whether there is one.
pub proof fn keyboards_give_characters(
    capacity: u16,
    trigger: Trigger,
    before: Bit,
    buffer: Seq<char>,
    cursor: usize,
    ins: Seq<Seq<Bit>>,
)
    requires
        ins.len() >= 3,
        cursor <= buffer.len(),
    ensures
        ({
            let g = GateView::Keyboard { capacity, trigger, last_clock: before, buffer, cursor };
            let (after, out) = g.eval(ins);
            let now = signal::bit_of(ins[1], 0);
            let clear = signal::bit_of(ins[0], 0) == Bit::One;
            let gives = !clear && signal::bit_of(ins[2], 0) != Bit::Zero && is_awaited(
                trigger,
                before,
                now,
            );
            &&& after matches GateView::Keyboard {
                capacity: n2,
                trigger: t2,
                last_clock: k2,
                buffer: left,
                cursor: at,
            } && ({
                &&& n2 == capacity && t2 == trigger && k2 == now
                &&& clear ==> left.len() == 0 && at == 0
                &&& !clear && !gives ==> left == buffer && at == cursor
                &&& gives && buffer.len() == 0 ==> left == buffer && at == cursor
                &&& gives && buffer.len() > 0 ==> left == buffer.skip(1) && at == (if cursor == 0 {
                    0
                } else {
                    cursor - 1
                })
                &&& out.len() == 2
                &&& left.len() > 0 && left[0] != '\0' ==> out == seq![
                    seq![Bit::One],
                    signal::bits_of(left[0] as int, 7),
                ]
                &&& left.len() == 0 || left[0] == '\0' ==> out == seq![
                    seq![Bit::Zero],
                    signal::bits_of(0, 7),
                ]
            })
        }),
{
    assert(memory::fires(trigger, before, signal::bit_of(ins[1], 0)) <==> is_awaited(
        trigger,
        before,
        signal::bit_of(ins[1], 0),
    ));
    if buffer.len() > 0 {
        assert(buffer.drop_first() =~= buffer.skip(1));
    }
}

/// A key goes into a keyboard's buffer at the cursor, which moves behind it, unless the buffer is
/// full; the other actions delete the character at the cursor and move it.
pub proof fn keyboards_are_typed_on(
    capacity: u16,
    trigger: Trigger,
    last_clock: Bit,
    buffer: Seq<char>,
    cursor: usize,
    code: i64,
    arg: Option<ValueView>,
)
    requires
        cursor <= buffer.len() <= capacity,
        0 <= code <= 0xD7FF || 0xE000 <= code <= 0x10FFFF,
    ensures
        ({
            let g = GateView::Keyboard { capacity, trigger, last_clock, buffer, cursor };
            let n = buffer.len() as usize;
            let key = g.invoke("key"@, Some(ValueView::Int(code)));
            &&& key.1 is Ok
            &&& buffer.len() == capacity ==> key.0 == g
            &&& buffer.len() < capacity ==> (key.0 matches GateView::Keyboard {
                buffer: typed,
                cursor: at,
                ..
            } && at == cursor + 1 && typed == buffer.take(cursor as int) + seq![code as char]
                + buffer.skip(cursor as int))
            &&& g.invoke("delete"@, arg).1 is Ok
            &&& cursor == n ==> g.invoke("delete"@, arg).0 == g
            &&& cursor < n ==> (g.invoke("delete"@, arg).0 matches GateView::Keyboard {
                buffer: left,
                cursor: at,
                ..
            } && at == cursor && left == buffer.take(cursor as int) + buffer.skip(cursor + 1))
            &&& g.invoke("left"@, arg) == (
                (GateView::Keyboard {
                    capacity,
                    trigger,
                    last_clock,
                    buffer,
                    cursor: if cursor == 0 {
                        0
                    } else {
                        (cursor - 1) as usize
                    },
                }),
                Ok::<(), ActionErrorView>(()),
            )
            &&& g.invoke("right"@, arg) == (
                (GateView::Keyboard {
                    capacity,
                    trigger,
                    last_clock,
                    buffer,
                    cursor: if cursor == n {
                        n
                    } else {
                        (cursor + 1) as usize
                    },
                }),
                Ok::<(), ActionErrorView>(()),
            )
            &&& g.invoke("home"@, arg) == (
                (GateView::Keyboard { capacity, trigger, last_clock, buffer, cursor: 0 }),
                Ok::<(), ActionErrorView>(()),
            )
            &&& g.invoke("end"@, arg) == (
                (GateView::Keyboard { capacity, trigger, last_clock, buffer, cursor: n }),
                Ok::<(), ActionErrorView>(()),
            )
        }),
{
    reveal_strlit("key");
    reveal_strlit("delete");
    reveal_strlit("left");
    reveal_strlit("right");
    reveal_strlit("home");
    reveal_strlit("end");
    assert("key"@.len() == 3 && "delete"@.len() == 6 && "left"@.len() == 4 && "right"@.len() == 5
        && "home"@.len() == 4 && "end"@.len() == 3);
    assert("key"@[0] == 'k' && "end"@[0] == 'e' && "left"@[0] == 'l' && "home"@[0] == 'h');
    vstd::arithmetic::div_mod::lemma_small_mod(code as nat, 0x1_0000_0000);
    if buffer.len() < capacity {
        assert(buffer.insert(cursor as int, code as char) =~= buffer.take(cursor as int) + seq![
            code as char,
        ] + buffer.skip(cursor as int));
    }
    if cursor < buffer.len() {
        assert(buffer.remove(cursor as int) =~= buffer.take(cursor as int) + buffer.skip(
            cursor + 1,
        ));
    }
}

/// A reset gives memory, pins, displays, terminals and keyboards back the state that they began
/// in, and keeps what they are: a read-only memory keeps its cells, and a gate without a state
/// is left alone.
pub proof fn resets_give_the_first_state(g: GateView, node: crate::netlist::TemplateNode)
    ensures
        !(node is Subcircuit) ==> node.initial().reset() == node.initial(),
        g matches GateView::Clock { high, low, .. } ==> g.reset() == (GateView::Clock {
            high,
            low,
            clicks: 0,
            sending: Bit::Zero,
        }),
        g matches GateView::Register { bits, trigger, .. } ==> g.reset() == (GateView::Register {
            bits,
            trigger,
            value: 0,
            last_clock: Bit::Zero,
        }),
        g matches GateView::Rom { addr_bits, data_bits, contents, .. } ==> g.reset() == (
        GateView::Rom {
            addr_bits,
            data_bits,
            contents,
            held_data: signal::filled(data_bits as nat, Bit::Zero),
        }),
        g matches GateView::Ram { addr_bits, data_bits, bus, contents, .. } ==> (
        g.reset() matches GateView::Ram {
            addr_bits: a,
            data_bits: d,
            bus: b,
            contents: cells,
            last_clock,
            held_data,
        } && a == addr_bits && d == data_bits && b == bus && last_clock == Bit::Zero && held_data
            == signal::filled(data_bits as nat, Bit::Zero) && cells.len() == contents.len()
            && forall|i: int| 0 <= i < cells.len() ==> #[trigger] cells[i] == 0),
{
    if let crate::netlist::TemplateNode::Tty { cols, rows, trigger } = node {
        assert(node.initial().reset() =~= node.initial());
    }
}

/// How long gates take: sources, sinks and displays no time of their own, logic and wiring one
/// tick, plexers three, registers eight and memories ten, and arithmetic longer the wider it is.
pub proof fn gates_take_their_time(g: GateView)
    ensures
        g.category() is Logic ==> g.delay() == 1,
        g is Constant || g is InputPin || g is OutputPin || g is PullResistor || g is HexDigit || g
            is Clock || g is DotMatrix || g is Tty ==> g.delay() == 0,
        g is BitExtender || g is Transistor || g is Keyboard ==> g.delay() == 1,
        g is Register ==> g.delay() == 8,
        g is Rom || g is Ram ==> g.delay() == 10,
        g is Mux || g is Demux || g is Decoder || g is PriorityEncoder ==> g.delay() == 3,
        g matches GateView::Adder { bits } ==> g.delay() == bits + 2,
        g matches GateView::Comparator { bits, .. } ==> g.delay() == bits + 2,
        g matches GateView::Subtractor { bits } ==> g.delay() == bits + 4,
        g matches GateView::Multiplier { bits } ==> g.delay() == bits * bits + 2 * bits,
        g matches GateView::Divider { bits } ==> g.delay() == bits * bits + 2 * bits,
{
    if let GateView::Multiplier { bits } = g {
        area(bits);
    }
    if let GateView::Divider { bits } = g {
        area(bits);
    }
}

proof fn area(bits: u8)
    ensures
        bits * (bits + 2) == bits * bits + 2 * bits,
        0 <= bits * (bits + 2) <= u64::MAX,
{
    assert(bits * (bits + 2) == bits * bits + 2 * bits && 0 <= bits * (bits + 2) <= 0xFFFF_FFFF)
        by (nonlinear_arith)
        requires
            0 <= bits <= 255,
    ;
}

/// What terminals and keyboards tell: where the cursor is, how much is waiting, and the next
/// character.
pub proof fn terminals_and_keyboards_tell(
    cols: u8,
    rows: u8,
    capacity: u16,
    trigger: Trigger,
    last_clock: Bit,
    row_data: Seq<Seq<char>>,
    last_row: Seq<char>,
    row: usize,
    buffer: Seq<char>,
    cursor: usize,
)
    requires
        row < rows,
        last_row.len() <= cols,
        cursor <= buffer.len() <= capacity,
    ensures
        ({
            let tty = GateView::Tty { cols, rows, trigger, last_clock, row_data, last_row, row };
            let keyboard = GateView::Keyboard { capacity, trigger, last_clock, buffer, cursor };
            &&& tty.read("cursor_row"@) matches Ok(ValueView::Int(n)) && n == row
            &&& tty.read("cursor_col"@) matches Ok(ValueView::Int(n)) && n == last_row.len()
            &&& keyboard.read("len"@) matches Ok(ValueView::Int(n)) && n == buffer.len()
            &&& keyboard.read("cursor"@) matches Ok(ValueView::Int(n)) && n == cursor
            &&& keyboard.read("avail"@) == Ok::<ValueView, Seq<char>>(
                ValueView::Bool(buffer.len() > 0 && buffer[0] != '\0'),
            )
            &&& buffer.len() > 0 ==> keyboard.read("get"@) == Ok::<ValueView, Seq<char>>(
                ValueView::Bits(signal::bits_of(buffer[0] as int, 7)),
            )
        }),
{
    reveal_strlit("cursor_row");
    reveal_strlit("cursor_col");
    reveal_strlit("len");
    reveal_strlit("cursor");
    reveal_strlit("avail");
    reveal_strlit("get");
    assert("cursor_row"@.len() == 10 && "cursor_col"@.len() == 10 && "cursor_row"@[7] == 'r'
        && "cursor_col"@[7] == 'c');
    assert("len"@.len() == 3 && "get"@.len() == 3 && "len"@[0] == 'l' && "get"@[0] == 'g'
        && "cursor"@.len() == 6 && "avail"@.len() == 5);
}

/// A row of a terminal is read as seven bits for each of its characters, in order: a full row
/// above the cursor, the last one at it, and nothing below.
pub proof fn terminal_rows_are_read(
    cols: u8,
    rows: u8,
    trigger: Trigger,
    last_clock: Bit,
    row_data: Seq<Seq<char>>,
    last_row: Seq<char>,
    row: usize,
    name: Seq<char>,
    r: nat,
    i: int,
)
    requires
        name.len() > 3,
        name.take(3) == "row"@,
        text::parsed(name.skip(3), 10, usize::MAX as nat) == Some(r),
        row <= row_data.len(),
    ensures
        ({
            let g = GateView::Tty { cols, rows, trigger, last_clock, row_data, last_row, row };
            let chars = if r < row {
                row_data[r as int]
            } else if r == row {
                last_row
            } else {
                Seq::empty()
            };
            &&& g.read(name) matches Ok(ValueView::Bits(bits)) && bits.len() == 7 * chars.len() && (0
                <= i < chars.len() ==> bits.subrange(7 * i, 7 * i + 7) == signal::bits_of(
                chars[i] as int,
                7,
            ))
        }),
{
    reveal_strlit("row");
    reveal_strlit("cursor_row");
    reveal_strlit("cursor_col");
    assert("row"@[0] == 'r' && "cursor_row"@[0] == 'c' && "cursor_col"@[0] == 'c');
    assert(name.take(3)[0] == name[0]);
    let chars = if r < row {
        row_data[r as int]
    } else if r == row {
        last_row
    } else {
        Seq::empty()
    };
    if 0 <= i < chars.len() {
        let bits = io::chars_signal(chars);
        assert(bits.subrange(7 * i, 7 * i + 7) =~= signal::bits_of(chars[i] as int, 7));
    }
}

/// How many pins gates have.
pub proof fn gates_have_as_many_pins(g: GateView)
    ensures
        g matches GateView::And { inputs, .. } ==> g.input_count() == inputs,
        g matches GateView::Or { inputs, .. } ==> g.input_count() == inputs,
        g matches GateView::Nand { inputs, .. } ==> g.input_count() == inputs,
        g matches GateView::Nor { inputs, .. } ==> g.input_count() == inputs,
        g matches GateView::Xor { inputs, .. } ==> g.input_count() == inputs,
        g matches GateView::Xnor { inputs, .. } ==> g.input_count() == inputs,
        g is Not || g is Buffer || g is OutputPin ==> g.input_count() == 1,
        g is ControlledBuffer || g is HexDigit || g is Transistor || g is Comparator || g is Rom
            ==> g.input_count() == 2,
        g is Adder || g is Subtractor || g is Multiplier || g is Divider || g is Keyboard
            ==> g.input_count() == 3,
        g is Register || g is Tty ==> g.input_count() == 4,
        g is Constant || g is InputPin || g is PullResistor || g is Clock ==> g.input_count() == 0,
        g matches GateView::Mux { select_bits, has_enable, .. } ==> g.input_count()
            == power2::pow2(select_bits as nat) + (if has_enable {
            2int
        } else {
            1int
        }),
        g matches GateView::PriorityEncoder { select_bits, .. } ==> g.input_count()
            == power2::pow2(select_bits as nat) + 1,
        g.category() is Logic ==> g.output_count() == 1,
        g is OutputPin || g is HexDigit || g is DotMatrix || g is Tty ==> g.output_count() == 0,
        g is Adder || g is Subtractor || g is Multiplier || g is Divider || g is Keyboard
            ==> g.output_count() == 2,
        g is Comparator || g is PriorityEncoder ==> g.output_count() == 3,
        g is Constant || g is InputPin || g is PullResistor || g is BitExtender || g is Transistor
            || g is Clock || g is Register || g is Rom || g is Ram || g is Mux ==> g.output_count()
            == 1,
        g matches GateView::Demux { select_bits, .. } ==> g.output_count() == power2::pow2(
            select_bits as nat,
        ),
        g matches GateView::Decoder { select_bits, .. } ==> g.output_count() == power2::pow2(
            select_bits as nat,
        ),
{
}

/// What a gate outputs in an evaluation has its declared pins and widths.
#[verifier::rlimit(60)]
pub proof fn evaluations_fit_the_pins(g: GateView, ins: Seq<Seq<Bit>>, p: int)
    requires
        g.widths_kept(),
        0 <= p < g.output_count(),
    ensures
        g.eval(ins).1.len() == g.output_count(),
        g.eval(ins).1[p].len() == g.output_width(p),
{
    match g {
        GateView::And { .. } => {
            assert(g.eval(ins).1.len() == g.output_count() && g.eval(ins).1[p].len()
                == g.output_width(p));
        },
        GateView::Or { .. } => {
            assert(g.eval(ins).1.len() == g.output_count() && g.eval(ins).1[p].len()
                == g.output_width(p));
        },
        GateView::Not { .. } => {
            assert(g.eval(ins).1.len() == g.output_count() && g.eval(ins).1[p].len()
                == g.output_width(p));
        },
        GateView::Nand { .. } => {
            assert(g.eval(ins).1.len() == g.output_count() && g.eval(ins).1[p].len()
                == g.output_width(p));
        },
        GateView::Nor { .. } => {
            assert(g.eval(ins).1.len() == g.output_count() && g.eval(ins).1[p].len()
                == g.output_width(p));
        },
        GateView::Xor { .. } => {
            assert(g.eval(ins).1.len() == g.output_count() && g.eval(ins).1[p].len()
                == g.output_width(p));
        },
        GateView::Xnor { .. } => {
            assert(g.eval(ins).1.len() == g.output_count() && g.eval(ins).1[p].len()
                == g.output_width(p));
        },
        GateView::Buffer { .. } => {
            assert(g.eval(ins).1.len() == g.output_count() && g.eval(ins).1[p].len()
                == g.output_width(p));
        },
        GateView::ControlledBuffer { .. } => {
            assert(g.eval(ins).1.len() == g.output_count() && g.eval(ins).1[p].len()
                == g.output_width(p));
        },
        GateView::Constant { .. } => {
            assert(g.eval(ins).1.len() == g.output_count() && g.eval(ins).1[p].len()
                == g.output_width(p));
        },
        GateView::InputPin { .. } => {
            assert(g.eval(ins).1.len() == g.output_count() && g.eval(ins).1[p].len()
                == g.output_width(p));
        },
        GateView::OutputPin { .. } => {
            assert(g.eval(ins).1.len() == g.output_count() && g.eval(ins).1[p].len()
                == g.output_width(p));
        },
        GateView::PullResistor { .. } => {
            assert(g.eval(ins).1.len() == g.output_count() && g.eval(ins).1[p].len()
                == g.output_width(p));
        },
        GateView::BitExtender { .. } => {
            assert(g.eval(ins).1.len() == g.output_count() && g.eval(ins).1[p].len()
                == g.output_width(p));
        },
        GateView::HexDigit { .. } => {
            assert(g.eval(ins).1.len() == g.output_count() && g.eval(ins).1[p].len()
                == g.output_width(p));
        },
        GateView::Transistor { .. } => {
            assert(g.eval(ins).1.len() == g.output_count() && g.eval(ins).1[p].len()
                == g.output_width(p));
        },
        GateView::Clock { .. } => {
            assert(g.eval(ins).1.len() == g.output_count() && g.eval(ins).1[p].len()
                == g.output_width(p));
        },
        GateView::Register { .. } => {
            assert(g.eval(ins).1.len() == g.output_count() && g.eval(ins).1[p].len()
                == g.output_width(p));
        },
        GateView::Rom { .. } => {
            assert(g.eval(ins).1.len() == g.output_count() && g.eval(ins).1[p].len()
                == g.output_width(p));
        },
        GateView::Ram { .. } => {
            assert(g.eval(ins).1.len() == g.output_count() && g.eval(ins).1[p].len()
                == g.output_width(p));
        },
        GateView::Mux { .. } => {
            assert(g.eval(ins).1.len() == g.output_count() && g.eval(ins).1[p].len()
                == g.output_width(p));
        },
        GateView::Demux { .. } => {
            assert(g.eval(ins).1.len() == g.output_count() && g.eval(ins).1[p].len()
                == g.output_width(p));
        },
        GateView::Decoder { .. } => {
            assert(g.eval(ins).1.len() == g.output_count() && g.eval(ins).1[p].len()
                == g.output_width(p));
        },
        GateView::PriorityEncoder { .. } => {
            assert(g.eval(ins).1.len() == g.output_count() && g.eval(ins).1[p].len()
                == g.output_width(p));
        },
        GateView::Adder { .. } => {
            assert(g.eval(ins).1.len() == g.output_count() && g.eval(ins).1[p].len()
                == g.output_width(p));
        },
        GateView::Subtractor { .. } => {
            assert(g.eval(ins).1.len() == g.output_count() && g.eval(ins).1[p].len()
                == g.output_width(p));
        },
        GateView::Comparator { .. } => {
            assert(g.eval(ins).1.len() == g.output_count() && g.eval(ins).1[p].len()
                == g.output_width(p));
        },
        GateView::Multiplier { .. } => {
            assert(g.eval(ins).1.len() == g.output_count() && g.eval(ins).1[p].len()
                == g.output_width(p));
        },
        GateView::Divider { .. } => {
            assert(g.eval(ins).1.len() == g.output_count() && g.eval(ins).1[p].len()
                == g.output_width(p));
        },
        GateView::DotMatrix { .. } => {
            assert(g.eval(ins).1.len() == g.output_count() && g.eval(ins).1[p].len()
                == g.output_width(p));
        },
        GateView::Tty { .. } => {
            assert(g.eval(ins).1.len() == g.output_count() && g.eval(ins).1[p].len()
                == g.output_width(p));
        },
        GateView::Keyboard { .. } => {
            assert(g.eval(ins).1.len() == g.output_count() && g.eval(ins).1[p].len()
                == g.output_width(p));
        },
    }
}

/// A number that is no character's code is no key, nor is anything but a number.
pub proof fn keys_are_characters(g: GateView, code: i64, arg: Option<ValueView>)
    requires
        g is Keyboard,
        0xD800 <= code <= 0xDFFF || 0x11_0000 <= code <= u32::MAX,
        !(arg matches Some(ValueView::Int(_))),
    ensures
        g.invoke("key"@, Some(ValueView::Int(code))) == (
            g,
            Err::<(), ActionErrorView>(
                (ActionErrorView::InvalidArg {
                    action: "key"@,
                    reason: "not a valid char code: "@ + text::decimal_int(code as int),
                }),
            ),
        ),
        g.invoke("key"@, arg).0 == g,
        g.invoke("key"@, arg).1 is Err,
{
    vstd::arithmetic::div_mod::lemma_small_mod(code as nat, 0x1_0000_0000);
}

/// How the states of registers, clocks and pins are laid out in bytes: numbers first, lowest byte
/// first, then one byte for each bit.
pub proof fn states_are_laid_out(g: GateView)
    ensures
        g matches GateView::Register { value, last_clock, .. } ==> g.saved() == state::le32(
            value as nat,
        ) + state::bytes_of(seq![last_clock]),
        g matches GateView::Clock { clicks, sending, .. } ==> g.saved() == state::le32(
            clicks as nat % 0x1_0000_0000,
        ) + state::le32(clicks as nat / 0x1_0000_0000) + state::bytes_of(seq![sending]),
        g matches GateView::InputPin { value, .. } ==> g.saved() == state::bytes_of(value),
        g matches GateView::OutputPin { value, .. } ==> g.saved() == state::bytes_of(value),
        g matches GateView::HexDigit { value } ==> g.saved() == state::bytes_of(value),
        g matches GateView::DotMatrix { grid, .. } ==> g.saved() == state::bytes_of(grid),
        g matches GateView::Rom { contents, held_data, .. } ==> g.saved() == state::words_bytes(
            contents,
        ) + state::bytes_of(held_data),
        g matches GateView::Ram { contents, held_data, last_clock, .. } ==> g.saved()
            == state::words_bytes(contents) + state::bytes_of(held_data) + state::bytes_of(
            seq![last_clock],
        ),
        !(g.category() is Wiring || g.category() is Memory || g.category() is Io) ==> g.saved().len()
            == 0,
{
    match g {
        GateView::Register { value, last_clock, .. } => {
            assert(g.saved() =~= state::le32(value as nat) + state::bytes_of(seq![last_clock]));
        },
        GateView::Clock { clicks, sending, .. } => {
            assert(g.saved() =~= state::le32(clicks as nat % 0x1_0000_0000) + state::le32(
                clicks as nat / 0x1_0000_0000,
            ) + state::bytes_of(seq![sending]));
        },
        GateView::Ram { contents, held_data, last_clock, .. } => {
            assert(g.saved() =~= state::words_bytes(contents) + state::bytes_of(held_data)
                + state::bytes_of(seq![last_clock]));
        },
        _ => {},
    }
}

/// Why a pin and a register refuse to be set: the reason names what was expected and what came.
pub proof fn refusals_give_reasons(g: GateView, b: bool, i: i64)
    ensures
        ({
            let came = if b {
                "Some(Bool(true))"@
            } else {
                "Some(Bool(false))"@
            };
            &&& g is Register ==> g.invoke("set"@, None) == (
                g,
                Err::<(), ActionErrorView>(
                    (ActionErrorView::InvalidArg {
                        action: "set"@,
                        reason: "expected Int, got "@ + "None"@,
                    }),
                ),
            )
            &&& g is Register ==> (g.invoke("set"@, Some(ValueView::Bool(b))).1 matches Err(
                ActionErrorView::InvalidArg { action, reason },
            ) && action == "set"@ && reason == "expected Int, got "@ + came)
            &&& g matches GateView::InputPin { bits, .. } ==> (bits > 1 ==> (g.invoke(
                "set"@,
                Some(ValueView::Bool(b)),
            ).1 matches Err(ActionErrorView::InvalidArg { action, reason }) && action == "set"@
                && reason == "expected Bool (1-bit only), Int, or "@ + text::decimal(bits as nat)
                + "-bit Bits, got "@ + came))
        }),
        (ValueView::Int(i)).text() == "Int("@ + text::decimal_int(i as int) + ")"@,
{
    pin_actions_differ();
    reveal_strlit("Some(");
    reveal_strlit(")");
    reveal_strlit("Bool(true)");
    reveal_strlit("Bool(false)");
    reveal_strlit("Some(Bool(true))");
    reveal_strlit("Some(Bool(false))");
    assert("Some("@ + "Bool(true)"@ + ")"@ =~= "Some(Bool(true))"@);
    assert("Some("@ + "Bool(false)"@ + ")"@ =~= "Some(Bool(false))"@);
}

/// Gates without actions refuse every one, gates without readouts have none, and the names that a
/// gate lists are those that it knows.
pub proof fn gates_know_their_names(g: GateView, name: Seq<char>, arg: Option<ValueView>)
    ensures
        !(g is InputPin || g is Clock || g is Register || g is Keyboard) ==> g.action_names().len()
            == 0 && g.invoke(name, arg) == (
            g,
            Err::<(), ActionErrorView>(ActionErrorView::UnknownAction(name)),
        ),
        g is Clock ==> g.action_names() == seq!["toggle"@],
        g is Register ==> g.action_names() == seq!["set"@],
        g is Register && name != "set"@ ==> g.invoke(name, arg) == (
            g,
            Err::<(), ActionErrorView>(ActionErrorView::UnknownAction(name)),
        ),
        g matches GateView::InputPin { bits, .. } ==> g.action_names() == (if bits == 1 {
            seq!["set"@, "on"@, "off"@, "toggle"@]
        } else {
            seq!["set"@]
        }),
        g is Keyboard ==> g.action_names() == seq![
            "key"@,
            "delete"@,
            "left"@,
            "right"@,
            "home"@,
            "end"@,
        ],
        g is InputPin || g is OutputPin || g is HexDigit || g is Clock || g is Register || g
            is DotMatrix ==> g.readout_names() == seq!["get"@] && g.read("get"@) is Ok && (name
            != "get"@ ==> g.read(name) == Err::<ValueView, Seq<char>>(name)),
        g is Tty ==> g.readout_names() == seq!["cursor_row"@, "cursor_col"@],
        g is Keyboard ==> g.readout_names() == seq!["get"@, "avail"@, "cursor"@, "len"@],
        g.category() is Logic || g.category() is Plexers || g.category() is Arithmetic || g is Rom
            || g is Ram || g is Constant || g is PullResistor || g is BitExtender || g is Transistor
            ==> g.readout_names().len() == 0 && g.read(name) == Err::<ValueView, Seq<char>>(name),
{
}

} // verus!
