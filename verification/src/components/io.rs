//! Components that face the user: DotMatrix, Tty and Keyboard.
use vstd::prelude::*;
use vstd::arithmetic::{div_mod, power2};
use vstd::string::StringExecFns;
use super::memory::low_digits;
use super::signal::{bit_at, fill, signal_to_u32_if_defined, u32_to_signal};
use super::state::{bit_to_byte, byte_to_bit, push_bits, push_u32, read_bits, read_u32};
use super::{memory, signal, state, Gate, GateView};
use crate::plugin_abi;
use crate::plugin_abi::{
    ActionError, ActionErrorView, Bit, ReadoutError, Signal, Value, ValueView,
};
use crate::text;

verus! {

/// How a dot matrix is wired: one input per column, one input per row, or one input for the
/// columns and one that selects rows.
#[derive(Debug, Clone, Copy, PartialEq, Eq, Structural)]
pub enum DotMatrixInput {
    Column,
    Row,
    Select,
}

/// One light of a dot matrix after an evaluation. A column's bit 0 is its bottom row, a row's
/// bit 0 is its rightmost column; in select mode bit 0 of the row select is the bottom row and
/// bit 0 of the column data the leftmost column, and an undefined select bit shows as `Error`
/// on its whole row.
pub open spec fn light(
    rows: int,
    cols: int,
    input: DotMatrixInput,
    before: Bit,
    ins: Seq<Seq<Bit>>,
    r: int,
    c: int,
) -> Bit {
    match input {
        DotMatrixInput::Column => if c < ins.len() {
            signal::bit_of(ins[c], rows - 1 - r)
        } else {
            before
        },
        DotMatrixInput::Row => if r < ins.len() {
            signal::bit_of(ins[r], cols - 1 - c)
        } else {
            before
        },
        DotMatrixInput::Select => match signal::bit_of(ins[1], rows - 1 - r) {
            Bit::One => signal::bit_of(ins[0], c),
            Bit::Zero => Bit::Zero,
            _ => Bit::Error,
        },
    }
}

/// All lights of a dot matrix after an evaluation, row by row from the top left.
pub open spec fn painted(
    rows: int,
    cols: int,
    input: DotMatrixInput,
    grid: Seq<Bit>,
    ins: Seq<Seq<Bit>>,
) -> Seq<Bit> {
    Seq::new(
        grid.len(),
        |k: int| light(rows, cols, input, grid[k], ins, k / cols, k % cols),
    )
}

/// A character's port encoding: its low seven digits.
pub open spec fn char_signal(c: char) -> Seq<Bit> {
    signal::bits_of(c as int, 7)
}

/// Several characters' port encodings, one after the other.
pub open spec fn chars_signal(chars: Seq<char>) -> Seq<Bit> {
    Seq::new(7 * chars.len(), |i: int| char_signal(chars[i / 7])[i % 7])
}

/// The character on a terminal's input pin: a question mark where it is undefined.
pub open spec fn typed_char(s: Seq<Bit>) -> char {
    if signal::defined(s, 7) {
        signal::value_of(s, 7) as char
    } else {
        '?'
    }
}

/// A control character: Unicode category Cc.
pub open spec fn is_control(c: char) -> bool {
    c as u32 <= 0x1F || 0x7F <= c as u32 <= 0x9F
}

/// The text of a terminal: committed rows, the row in progress, and its number.
pub struct TtyText {
    pub rows: Seq<Seq<char>>,
    pub last: Seq<char>,
    pub row: usize,
}

/// No text, with `n` rows to commit to.
pub open spec fn blank_text(n: nat) -> TtyText {
    TtyText { rows: Seq::new(n, |i: int| Seq::empty()), last: Seq::empty(), row: 0 }
}

impl TtyText {
    /// The row in progress is committed. Once all committed rows are taken, the oldest scrolls
    /// out; a terminal of a single row keeps nothing.
    pub open spec fn committed(self) -> TtyText {
        if self.row < self.rows.len() {
            TtyText {
                rows: self.rows.update(self.row as int, self.last),
                last: Seq::empty(),
                row: (self.row + 1) as usize,
            }
        } else if self.rows.len() > 0 {
            TtyText {
                rows: self.rows.drop_first().push(self.last),
                last: Seq::empty(),
                row: self.row,
            }
        } else {
            TtyText { rows: self.rows, last: Seq::empty(), row: self.row }
        }
    }

    /// A character is typed: form feed clears, backspace erases, newline and carriage return
    /// commit, other control characters do nothing, and anything else is appended, to a new
    /// row where this one is full.
    pub open spec fn typed(self, cols: u8, c: char) -> TtyText {
        if c == '\u{c}' {
            blank_text(self.rows.len())
        } else if c == '\u{8}' {
            TtyText {
                last: if self.last.len() > 0 {
                    self.last.drop_last()
                } else {
                    self.last
                },
                ..self
            }
        } else if c == '\n' || c == '\r' {
            self.committed()
        } else if is_control(c) {
            self
        } else {
            let t = if self.last.len() % 256 == cols as nat {
                self.committed()
            } else {
                self
            };
            TtyText { last: t.last.push(c), ..t }
        }
    }

    /// The text of row `index`: a committed row, the row in progress, or nothing.
    pub open spec fn row_text(self, index: nat) -> Seq<char> {
        if index < self.row {
            self.rows[index as int]
        } else if index == self.row {
            self.last
        } else {
            Seq::empty()
        }
    }
}

/// The longest a row gets.
pub open spec fn row_limit(cols: u8) -> nat {
    if cols == 0 {
        256
    } else {
        cols as nat
    }
}

/// The front of a keyboard queue, NUL where it is empty.
pub open spec fn front(buffer: Seq<char>) -> char {
    if buffer.len() > 0 {
        buffer[0]
    } else {
        '\0'
    }
}

/// A keyboard queue and its cursor after the front character is taken.
pub open spec fn dequeued(buffer: Seq<char>, cursor: usize) -> (Seq<char>, usize) {
    if buffer.len() == 0 {
        (buffer, cursor)
    } else {
        (
            buffer.drop_first(),
            if cursor > 0 {
                (cursor - 1) as usize
            } else {
                0
            },
        )
    }
}

/// A gate of this category and its output pins after an evaluation.
pub open spec fn evaluated(g: GateView, ins: Seq<Seq<Bit>>) -> (GateView, Seq<Seq<Bit>>) {
    match g {
        GateView::DotMatrix { rows, cols, input, grid } => (
            GateView::DotMatrix {
                rows,
                cols,
                input,
                grid: painted(rows as int, cols as int, input, grid, ins),
            },
            Seq::empty(),
        ),
        GateView::Tty { cols, rows, trigger, last_clock, row_data, last_row, row } => {
            let ck = signal::bit_of(ins[1], 0);
            let t = TtyText { rows: row_data, last: last_row, row };
            let after = if signal::bit_of(ins[0], 0) == Bit::One {
                blank_text(row_data.len())
            } else if signal::bit_of(ins[2], 0) != Bit::Zero && memory::fires(
                trigger,
                last_clock,
                ck,
            ) {
                t.typed(cols, typed_char(ins[3]))
            } else {
                t
            };
            (
                GateView::Tty {
                    cols,
                    rows,
                    trigger,
                    last_clock: ck,
                    row_data: after.rows,
                    last_row: after.last,
                    row: after.row,
                },
                Seq::empty(),
            )
        },
        GateView::Keyboard { capacity, trigger, last_clock, buffer, cursor } => {
            let ck = signal::bit_of(ins[1], 0);
            let (b, k) = if signal::bit_of(ins[0], 0) == Bit::One {
                (Seq::empty(), 0usize)
            } else if signal::bit_of(ins[2], 0) != Bit::Zero && memory::fires(
                trigger,
                last_clock,
                ck,
            ) {
                dequeued(buffer, cursor)
            } else {
                (buffer, cursor)
            };
            (
                GateView::Keyboard { capacity, trigger, last_clock: ck, buffer: b, cursor: k },
                seq![
                    seq![
                        if front(b) != '\0' {
                            Bit::One
                        } else {
                            Bit::Zero
                        },
                    ],
                    char_signal(front(b)),
                ],
            )
        },
        _ => (g, Seq::empty()),
    }
}

/// A gate of this category after a reset.
pub open spec fn reset(g: GateView) -> GateView {
    match g {
        GateView::DotMatrix { rows, cols, input, .. } => GateView::DotMatrix {
            rows,
            cols,
            input,
            grid: signal::filled((rows as nat) * (cols as nat), Bit::Unknown),
        },
        GateView::Tty { cols, rows, trigger, row_data, .. } => GateView::Tty {
            cols,
            rows,
            trigger,
            last_clock: Bit::Unknown,
            row_data: blank_text(row_data.len()).rows,
            last_row: Seq::empty(),
            row: 0,
        },
        GateView::Keyboard { capacity, trigger, .. } => GateView::Keyboard {
            capacity,
            trigger,
            last_clock: Bit::Unknown,
            buffer: Seq::empty(),
            cursor: 0,
        },
        _ => g,
    }
}

/// The codes of characters.
pub open spec fn codes(chars: Seq<char>) -> Seq<u32> {
    Seq::new(chars.len(), |i: int| chars[i] as u32)
}

/// Characters as bytes: their number, then four bytes each.
pub open spec fn chars_bytes(chars: Seq<char>) -> Seq<u8> {
    state::le32(chars.len() % 0x1_0000_0000) + state::words_bytes(codes(chars))
}

/// The first `k` rows as bytes.
pub open spec fn row_bytes(rows: Seq<Seq<char>>, k: nat) -> Seq<u8>
    decreases k,
{
    if k == 0 {
        Seq::empty()
    } else {
        row_bytes(rows, (k - 1) as nat) + chars_bytes(rows[k - 1])
    }
}

/// The saved state of a gate of this category.
pub open spec fn saved(g: GateView) -> Seq<u8> {
    match g {
        GateView::DotMatrix { grid, .. } => state::bytes_of(grid),
        GateView::Tty { last_clock, row_data, last_row, row, .. } => seq![
            state::byte_of(last_clock),
        ] + state::le32(row as nat % 0x1_0000_0000) + state::le32(
            row_data.len() % 0x1_0000_0000,
        ) + row_bytes(row_data, row_data.len()) + chars_bytes(last_row),
        GateView::Keyboard { last_clock, buffer, cursor, .. } => seq![state::byte_of(last_clock)]
            + state::le32(cursor as nat % 0x1_0000_0000) + chars_bytes(buffer),
        _ => Seq::empty(),
    }
}

/// The character with a code, NUL where there is none.
pub open spec fn char_with_code(v: u32) -> char {
    if text::is_char_code(v) {
        v as char
    } else {
        '\0'
    }
}

/// The characters stored at `off`.
pub open spec fn chars_at(s: Seq<u8>, off: int) -> Seq<char> {
    Seq::new(
        state::u32_at(s, off) as nat,
        |i: int| char_with_code(state::u32_at(s, off + 4 + 4 * i)),
    )
}

/// Where what follows the characters stored at `off` starts.
pub open spec fn after_chars(s: Seq<u8>, off: int) -> int {
    off + 4 + 4 * state::u32_at(s, off)
}

/// Where row `k` of the rows stored at `off` starts.
pub open spec fn row_offset(s: Seq<u8>, off: int, k: nat) -> int
    decreases k,
{
    if k == 0 {
        off + 4
    } else {
        after_chars(s, row_offset(s, off, (k - 1) as nat))
    }
}

/// The rows stored at `off`.
pub open spec fn rows_at(s: Seq<u8>, off: int) -> Seq<Seq<char>> {
    Seq::new(state::u32_at(s, off) as nat, |k: int| chars_at(s, row_offset(s, off, k as nat)))
}

/// A gate of this category after its state is restored from bytes.
pub open spec fn restored(g: GateView, s: Seq<u8>) -> GateView {
    match g {
        GateView::DotMatrix { rows, cols, input, grid } => GateView::DotMatrix {
            rows,
            cols,
            input,
            grid: state::bits_at(s, 0, grid.len(), Bit::Unknown),
        },
        GateView::Tty { cols, rows, trigger, .. } => GateView::Tty {
            cols,
            rows,
            trigger,
            last_clock: state::bit_at_byte(s, 0, Bit::Unknown),
            row_data: rows_at(s, 5),
            last_row: chars_at(s, row_offset(s, 5, state::u32_at(s, 5) as nat)),
            row: state::u32_at(s, 1) as usize,
        },
        GateView::Keyboard { capacity, trigger, .. } => GateView::Keyboard {
            capacity,
            trigger,
            last_clock: state::bit_at_byte(s, 0, Bit::Unknown),
            buffer: chars_at(s, 5),
            cursor: state::u32_at(s, 1) as usize,
        },
        _ => g,
    }
}

pub open spec fn action_names(g: GateView) -> Seq<Seq<char>> {
    match g {
        GateView::Keyboard { .. } => seq![
            "key"@,
            "delete"@,
            "left"@,
            "right"@,
            "home"@,
            "end"@,
        ],
        _ => Seq::empty(),
    }
}

/// A key press with a character: inserted at the cursor, unless the queue is full.
pub open spec fn pressed(buffer: Seq<char>, cursor: usize, capacity: u16, c: char) -> (
    Seq<char>,
    usize,
) {
    if buffer.len() >= capacity {
        (buffer, cursor)
    } else {
        (buffer.insert(cursor as int, c), (cursor + 1) as usize)
    }
}

/// An action on a keyboard: the queue and its cursor after it, or why it is refused.
pub open spec fn keyboard_action(
    buffer: Seq<char>,
    cursor: usize,
    capacity: u16,
    name: Seq<char>,
    arg: Option<ValueView>,
) -> Result<(Seq<char>, usize), ActionErrorView> {
    if name == "key"@ {
        match arg {
            Some(ValueView::Int(code)) => {
                let v = (code as int % 0x1_0000_0000) as u32;
                if text::is_char_code(v) {
                    Ok(pressed(buffer, cursor, capacity, v as char))
                } else {
                    Err(
                        ActionErrorView::InvalidArg {
                            action: "key"@,
                            reason: "not a valid char code: "@ + text::decimal_int(code as int),
                        },
                    )
                }
            },
            _ => Err(
                ActionErrorView::InvalidArg {
                    action: "key"@,
                    reason: "expected Int, got "@ + plugin_abi::arg_text(arg),
                },
            ),
        }
    } else if name == "delete"@ {
        if cursor < buffer.len() {
            Ok((buffer.remove(cursor as int), cursor))
        } else {
            Ok((buffer, cursor))
        }
    } else if name == "left"@ {
        if cursor > 0 {
            Ok((buffer, (cursor - 1) as usize))
        } else {
            Ok((buffer, cursor))
        }
    } else if name == "right"@ {
        if cursor < buffer.len() {
            Ok((buffer, (cursor + 1) as usize))
        } else {
            Ok((buffer, cursor))
        }
    } else if name == "home"@ {
        Ok((buffer, 0usize))
    } else if name == "end"@ {
        Ok((buffer, buffer.len() as usize))
    } else {
        Err(ActionErrorView::UnknownAction(name))
    }
}

/// An action on a gate of this category: what becomes of it, and the action's outcome.
pub open spec fn invoked(g: GateView, name: Seq<char>, arg: Option<ValueView>) -> (
    GateView,
    Result<(), ActionErrorView>,
) {
    match g {
        GateView::Keyboard { capacity, trigger, last_clock, buffer, cursor } => {
            match keyboard_action(buffer, cursor, capacity, name, arg) {
                Ok((b, k)) => (
                    GateView::Keyboard { capacity, trigger, last_clock, buffer: b, cursor: k },
                    Ok(()),
                ),
                Err(e) => (g, Err(e)),
            }
        },
        _ => (g, Err(ActionErrorView::UnknownAction(name))),
    }
}

pub open spec fn readout_names(g: GateView) -> Seq<Seq<char>> {
    match g {
        GateView::DotMatrix { .. } => seq!["get"@],
        GateView::Tty { .. } => seq!["cursor_row"@, "cursor_col"@],
        GateView::Keyboard { .. } => seq!["get"@, "avail"@, "cursor"@, "len"@],
        _ => Seq::empty(),
    }
}

/// The row number in a readout name of the form `row<N>`.
pub open spec fn row_index(name: Seq<char>) -> Option<nat> {
    if name.len() >= 3 && name.take(3) == "row"@ {
        text::parsed(name.skip(3), 10, usize::MAX as nat)
    } else {
        None
    }
}

/// What a readout of a gate of this category gives.
pub open spec fn readout(g: GateView, name: Seq<char>) -> Result<ValueView, Seq<char>> {
    match g {
        GateView::DotMatrix { grid, .. } => if name == "get"@ {
            Ok(ValueView::Bits(grid))
        } else {
            Err(name)
        },
        GateView::Tty { row_data, last_row, row, .. } => if name == "cursor_row"@ {
            Ok(ValueView::Int(row as i64))
        } else if name == "cursor_col"@ {
            Ok(ValueView::Int(last_row.len() as i64))
        } else {
            match row_index(name) {
                Some(index) => Ok(
                    ValueView::Bits(
                        chars_signal(
                            (TtyText { rows: row_data, last: last_row, row }).row_text(index),
                        ),
                    ),
                ),
                None => Err(name),
            }
        },
        GateView::Keyboard { buffer, cursor, .. } => if name == "get"@ {
            Ok(ValueView::Bits(char_signal(front(buffer))))
        } else if name == "avail"@ {
            Ok(ValueView::Bool(front(buffer) != '\0'))
        } else if name == "cursor"@ {
            Ok(ValueView::Int(cursor as i64))
        } else if name == "len"@ {
            Ok(ValueView::Int(buffer.len() as i64))
        } else {
            Err(name)
        },
        _ => Err(name),
    }
}

/// The states that a gate of this category can be in.
pub open spec fn valid(g: GateView) -> bool {
    match g {
        GateView::DotMatrix { rows, cols, grid, .. } => grid.len() == rows * cols,
        GateView::Tty { cols, rows, row_data, last_row, row, .. } => {
            &&& rows >= 1
            &&& row_data.len() == rows - 1
            &&& row < rows
            &&& last_row.len() <= row_limit(cols)
            &&& forall|i: int|
                0 <= i < row_data.len() ==> (#[trigger] row_data[i]).len() <= row_limit(cols)
        },
        GateView::Keyboard { capacity, buffer, cursor, .. } => cursor <= buffer.len() <= capacity,
        _ => true,
    }
}

/// The input lists that a gate of this category can be evaluated on.
pub open spec fn accepts(g: GateView, ins: Seq<Seq<Bit>>) -> bool {
    match g {
        GateView::DotMatrix { rows, cols, input, .. } => match input {
            DotMatrixInput::Column => rows > 0 ==> ins.len() <= cols,
            DotMatrixInput::Row => cols > 0 ==> ins.len() <= rows,
            DotMatrixInput::Select => ins.len() >= 2,
        },
        _ => ins.len() >= input_count(g),
    }
}

pub open spec fn input_count(g: GateView) -> nat {
    match g {
        GateView::DotMatrix { rows, cols, input, .. } => match input {
            DotMatrixInput::Column => cols as nat,
            DotMatrixInput::Row => rows as nat,
            DotMatrixInput::Select => 2,
        },
        GateView::Tty { .. } => 4,
        _ => 3,
    }
}

pub open spec fn input_width(g: GateView, pin: int) -> u8 {
    match g {
        GateView::DotMatrix { rows, cols, input, .. } => match input {
            DotMatrixInput::Column => rows,
            DotMatrixInput::Row => cols,
            DotMatrixInput::Select => if pin == 0 {
                cols
            } else {
                rows
            },
        },
        GateView::Tty { .. } => if pin == 3 {
            7
        } else {
            1
        },
        _ => 1,
    }
}

pub open spec fn output_count(g: GateView) -> nat {
    if g is Keyboard {
        2
    } else {
        0
    }
}

pub open spec fn output_width(g: GateView, pin: int) -> u8 {
    if pin == 0 {
        1
    } else {
        7
    }
}

/// Repaints every light of a dot matrix.
fn repaint(rows: u8, cols: u8, input: DotMatrixInput, grid: &Signal, inputs: &[Signal]) -> (r: Signal)
    requires
        grid@.len() == rows * cols,
        input == DotMatrixInput::Select ==> inputs@.len() >= 2,
    ensures
        r@ == painted(rows as int, cols as int, input, grid@, plugin_abi::signals(inputs@)),
{
    let ghost ins = plugin_abi::signals(inputs@);
    let ghost all = painted(rows as int, cols as int, input, grid@, ins);
    let mut out: Signal = Vec::new();
    for k in 0..grid.len()
        invariant
            grid@.len() == rows * cols,
            input == DotMatrixInput::Select ==> inputs@.len() >= 2,
            ins == plugin_abi::signals(inputs@),
            all == painted(rows as int, cols as int, input, grid@, ins),
            out@ == all.take(k as int),
    {
        proof {
            assert(cols > 0 && rows > 0) by (nonlinear_arith)
                requires
                    k < rows * cols,
                    k >= 0,
            ;
            vstd::arithmetic::mul::lemma_mul_is_commutative(rows as int, cols as int);
            div_mod::lemma_multiply_divide_lt(k as int, cols as int, rows as int);
            div_mod::lemma_fundamental_div_mod(k as int, cols as int);
        }
        let r: usize = k / cols as usize;
        let c: usize = k % cols as usize;
        let up: usize = rows as usize - 1 - r;
        let b: Bit = match input {
            DotMatrixInput::Column => if c < inputs.len() {
                bit_at(&inputs[c], up)
            } else {
                grid[k]
            },
            DotMatrixInput::Row => if r < inputs.len() {
                bit_at(&inputs[r], cols as usize - 1 - c)
            } else {
                grid[k]
            },
            DotMatrixInput::Select => match bit_at(&inputs[1], up) {
                Bit::One => bit_at(&inputs[0], c),
                Bit::Zero => Bit::Zero,
                Bit::Unknown | Bit::Error => Bit::Error,
            },
        };
        out.push(b);
        assert(out@ =~= all.take(k + 1));
    }
    assert(all.take(grid@.len() as int) =~= all);
    out
}

/// A character's port encoding: its low seven digits, bit 0 first.
pub fn char_bits(c: char) -> (r: Signal)
    ensures
        r@ == char_signal(c),
{
    u32_to_signal(c as u32, 7)
}

/// Several characters' port encodings, one after the other.
fn chars_bits(chars: &Vec<char>) -> (r: Signal)
    ensures
        r@ == chars_signal(chars@),
{
    let ghost all = chars_signal(chars@);
    let mut out: Signal = Vec::new();
    for i in 0..chars.len()
        invariant
            all == chars_signal(chars@),
            out@ == all.take(7 * i as int),
    {
        let mut one: Signal = char_bits(chars[i]);
        out.append(&mut one);
        assert(out@ =~= all.take(7 * (i + 1) as int)) by {
            assert forall|j: int| 7 * i <= j < 7 * i + 7 implies all[j] == char_signal(
                chars@[i as int],
            )[j - 7 * i] by {
                assert(j / 7 == i && j % 7 == j - 7 * i);
            }
        }
    }
    assert(all.take(7 * chars@.len() as int) =~= all);
    out
}

/// The character on a terminal's input pin.
fn read_char(signal: &Signal) -> (c: char)
    ensures
        c == typed_char(signal@),
{
    match signal_to_u32_if_defined(signal, 7) {
        Some(code) => {
            proof {
                signal::value_bound(signal@, 7);
                power2::lemma2_to64();
            }
            (code as u8) as char
        },
        None => '?',
    }
}

fn control(c: char) -> (r: bool)
    ensures
        r == is_control(c),
{
    let code: u32 = c as u32;
    code <= 0x1F || (0x7F <= code && code <= 0x9F)
}

/// The text that a terminal's fields hold.
spec fn text_of(row_data: Seq<Vec<char>>, last_row: Seq<char>, row: usize) -> TtyText {
    TtyText { rows: super::rows_view(row_data), last: last_row, row }
}

/// Commits the row in progress.
fn tty_commit(row_data: &mut Vec<Vec<char>>, last_row: &mut Vec<char>, row: &mut usize)
    requires
        *old(row) <= old(row_data)@.len(),
    ensures
        text_of(final(row_data)@, final(last_row)@, *final(row)) == text_of(
            old(row_data)@,
            old(last_row)@,
            *old(row),
        ).committed(),
{
    let ghost before = text_of(row_data@, last_row@, *row);
    let mut line: Vec<char> = Vec::new();
    std::mem::swap(&mut line, last_row);
    if *row < row_data.len() {
        row_data[*row] = line;
        *row = *row + 1;
    } else if row_data.len() > 0 {
        row_data.remove(0);
        row_data.push(line);
    }
    assert(text_of(row_data@, last_row@, *row).rows =~= before.committed().rows);
}

/// Empties every row.
fn clear_rows(row_data: &mut Vec<Vec<char>>)
    ensures
        super::rows_view(final(row_data)@) == blank_text(old(row_data)@.len()).rows,
{
    let n: usize = row_data.len();
    let mut rows: Vec<Vec<char>> = Vec::new();
    for i in 0..n
        invariant
            rows@.len() == i,
            forall|j: int| 0 <= j < i ==> (#[trigger] rows@[j])@.len() == 0,
    {
        rows.push(Vec::new());
    }
    *row_data = rows;
    assert(super::rows_view(row_data@) =~= blank_text(n as nat).rows) by {
        assert forall|j: int| 0 <= j < n implies super::rows_view(row_data@)[j] == blank_text(
            n as nat,
        ).rows[j] by {
            assert(row_data@[j]@ =~= Seq::<char>::empty());
        }
    }
}

/// Types one character on a terminal.
fn tty_add(
    cols: u8,
    row_data: &mut Vec<Vec<char>>,
    last_row: &mut Vec<char>,
    row: &mut usize,
    c: char,
)
    requires
        *old(row) <= old(row_data)@.len(),
    ensures
        text_of(final(row_data)@, final(last_row)@, *final(row)) == text_of(
            old(row_data)@,
            old(last_row)@,
            *old(row),
        ).typed(cols, c),
{
    if c == '\u{c}' {
        *row = 0;
        last_row.clear();
        clear_rows(row_data);
    } else if c == '\u{8}' {
        last_row.pop();
    } else if c == '\n' || c == '\r' {
        tty_commit(row_data, last_row, row);
    } else if !control(c) {
        if last_row.len() % 256 == cols as usize {
            tty_commit(row_data, last_row, row);
        }
        last_row.push(c);
    }
    assert(text_of(row_data@, last_row@, *row) == text_of(
        old(row_data)@,
        old(last_row)@,
        *old(row),
    ).typed(cols, c));
}

/// Takes the front character of a keyboard queue.
fn keyboard_dequeue(buffer: &mut Vec<char>, cursor: &mut usize)
    ensures
        (final(buffer)@, *final(cursor)) == dequeued(old(buffer)@, *old(cursor)),
{
    if buffer.len() > 0 {
        buffer.remove(0);
        if *cursor > 0 {
            *cursor = *cursor - 1;
        }
        assert(buffer@ =~= old(buffer)@.drop_first());
    }
}

/// Inserts a character at the cursor, unless the queue is full.
fn keyboard_insert(buffer: &mut Vec<char>, cursor: &mut usize, capacity: u16, c: char)
    requires
        *old(cursor) <= old(buffer)@.len(),
    ensures
        (final(buffer)@, *final(cursor)) == pressed(old(buffer)@, *old(cursor), capacity, c),
{
    if buffer.len() < capacity as usize {
        buffer.insert(*cursor, c);
        *cursor = *cursor + 1;
    }
}

fn front_char(buffer: &Vec<char>) -> (c: char)
    ensures
        c == front(buffer@),
{
    if buffer.len() > 0 {
        buffer[0]
    } else {
        '\0'
    }
}

/// Appends characters: their number, then four bytes each.
fn serialize_chars(out: &mut Vec<u8>, chars: &Vec<char>)
    ensures
        final(out)@ == old(out)@ + chars_bytes(chars@),
{
    let ghost start = out@;
    push_u32(out, ((chars.len() as u64) % 0x1_0000_0000) as u32);
    let ghost head = out@;
    let ghost all = state::words_bytes(codes(chars@));
    for i in 0..chars.len()
        invariant
            all == state::words_bytes(codes(chars@)),
            out@ == head + all.take(4 * i as int),
    {
        push_u32(out, chars[i] as u32);
        assert(out@ =~= head + all.take(4 * (i + 1) as int)) by {
            assert forall|j: int| 4 * i <= j < 4 * i + 4 implies all[j] == state::le32(
                chars@[i as int] as u32 as nat,
            )[j - 4 * i] by {
                assert(j / 4 == i && j % 4 == j - 4 * i);
            }
        }
    }
    assert(all.take(4 * chars@.len() as int) =~= all);
    assert(out@ =~= start + chars_bytes(chars@));
}

/// An offset cut off at the end of the bytes.
spec fn clamped(off: int, len: nat) -> int {
    if off < len {
        off
    } else {
        len as int
    }
}

/// Four bytes further, cut off at the end.
fn advance(state: &[u8], off: usize) -> (r: usize)
    requires
        off <= state@.len(),
    ensures
        r == clamped(off + 4, state@.len()),
{
    if state.len() - off >= 4 {
        off + 4
    } else {
        state.len()
    }
}

/// Reads the characters stored at an offset, and the offset after them.
fn deserialize_chars(state: &[u8], off: usize, Ghost(at): Ghost<int>) -> (r: (Vec<char>, usize))
    requires
        0 <= at,
        off == clamped(at, state@.len()),
    ensures
        r.0@ == chars_at(state@, at),
        r.1 == clamped(after_chars(state@, at), state@.len()),
{
    let n: u32 = read_u32(state, off);
    assert(n == state::u32_at(state@, at));
    let mut pos: usize = advance(state, off);
    let mut out: Vec<char> = Vec::new();
    for i in 0..n
        invariant
            0 <= at,
            pos == clamped(at + 4 + 4 * i, state@.len()),
            out@ == chars_at(state@, at).take(i as int),
            n == state::u32_at(state@, at),
    {
        let code: u32 = read_u32(state, pos);
        assert(code == state::u32_at(state@, at + 4 + 4 * i));
        let c: char = match char::from_u32(code) {
            Some(c) => c,
            None => '\0',
        };
        out.push(c);
        pos = advance(state, pos);
        assert(out@ =~= chars_at(state@, at).take(i + 1));
    }
    assert(chars_at(state@, at).take(n as int) =~= chars_at(state@, at));
    (out, pos)
}

/// Reads the rows stored at an offset, and the offset after them.
fn deserialize_char_rows(state: &[u8], off: usize) -> (r: (Vec<Vec<char>>, usize))
    requires
        off == clamped(5, state@.len()),
    ensures
        super::rows_view(r.0@) == rows_at(state@, 5),
        r.1 == clamped(row_offset(state@, 5, state::u32_at(state@, 5) as nat), state@.len()),
{
    let n: u32 = read_u32(state, off);
    assert(n == state::u32_at(state@, 5));
    let mut pos: usize = advance(state, off);
    let mut out: Vec<Vec<char>> = Vec::new();
    for k in 0..n
        invariant
            n == state::u32_at(state@, 5),
            pos == clamped(row_offset(state@, 5, k as nat), state@.len()),
            0 <= row_offset(state@, 5, k as nat),
            out@.len() == k,
            forall|j: int| 0 <= j < k ==> (#[trigger] out@[j])@ == rows_at(state@, 5)[j],
    {
        let (chars, next): (Vec<char>, usize) = deserialize_chars(
            state,
            pos,
            Ghost(row_offset(state@, 5, k as nat)),
        );
        out.push(chars);
        pos = next;
    }
    assert(super::rows_view(out@) =~= rows_at(state@, 5));
    (out, pos)
}

impl Gate {
    pub(crate) fn init_io(&mut self)
        requires
            old(self)@.category() is Io,
        ensures
            final(self)@ == reset(old(self)@),
    {
        match self {
            Gate::DotMatrix { rows, cols, grid, .. } => {
                proof {
                    assert(*rows * *cols <= 255 * 255) by (nonlinear_arith)
                        requires
                            *rows <= 255,
                            *cols <= 255,
                    ;
                }
                *grid = fill(Bit::Unknown, *rows as usize * *cols as usize);
            },
            Gate::Tty { row_data, last_row, row, last_clock, .. } => {
                clear_rows(row_data);
                last_row.clear();
                *row = 0;
                *last_clock = Bit::Unknown;
            },
            Gate::Keyboard { buffer, cursor, last_clock, .. } => {
                buffer.clear();
                *cursor = 0;
                *last_clock = Bit::Unknown;
            },
            _ => {},
        }
        assert(self@ =~= reset(old(self)@));
    }

    pub(crate) fn input_count_io(&self) -> (r: usize)
        requires
            self@.category() is Io,
        ensures
            r == input_count(self@),
    {
        match self {
            Gate::DotMatrix { rows, cols, input, .. } => match input {
                DotMatrixInput::Column => *cols as usize,
                DotMatrixInput::Row => *rows as usize,
                DotMatrixInput::Select => 2,
            },
            Gate::Tty { .. } => 4,
            _ => 3,
        }
    }

    pub(crate) fn input_width_io(&self, pin: usize) -> (r: u8)
        ensures
            r == input_width(self@, pin as int),
    {
        match self {
            Gate::DotMatrix { rows, cols, input, .. } => match input {
                DotMatrixInput::Column => *rows,
                DotMatrixInput::Row => *cols,
                DotMatrixInput::Select => if pin == 0 {
                    *cols
                } else {
                    *rows
                },
            },
            Gate::Tty { .. } => if pin == 3 {
                7
            } else {
                1
            },
            _ => 1,
        }
    }

    pub(crate) fn output_width_io(&self, pin: usize) -> (r: u8)
        ensures
            r == output_width(self@, pin as int),
    {
        if pin == 0 {
            1
        } else {
            7
        }
    }

    pub(crate) fn eval_io(&mut self, inputs: &[Signal]) -> (out: Vec<Signal>)
        requires
            old(self)@.category() is Io,
            valid(old(self)@),
            accepts(old(self)@, plugin_abi::signals(inputs@)),
        ensures
            (final(self)@, plugin_abi::signals(out@)) == evaluated(
                old(self)@,
                plugin_abi::signals(inputs@),
            ),
    {
        let ghost ins = plugin_abi::signals(inputs@);
        let ghost after = evaluated(self@, ins);
        let mut out: Vec<Signal> = Vec::new();
        match self {
            Gate::DotMatrix { rows, cols, input, grid } => {
                *grid = repaint(*rows, *cols, *input, grid, inputs);
            },
            Gate::Tty { cols, trigger, last_clock, row_data, last_row, row, .. } => {
                let clear: Bit = bit_at(&inputs[0], 0);
                let ck: Bit = bit_at(&inputs[1], 0);
                let we: Bit = bit_at(&inputs[2], 0);
                let triggered: bool = trigger.fired(*last_clock, ck);
                *last_clock = ck;
                if clear == Bit::One {
                    clear_rows(row_data);
                    last_row.clear();
                    *row = 0;
                } else if we != Bit::Zero && triggered {
                    tty_add(*cols, row_data, last_row, row, read_char(&inputs[3]));
                }
            },
            Gate::Keyboard { trigger, last_clock, buffer, cursor, .. } => {
                let clear: Bit = bit_at(&inputs[0], 0);
                let ck: Bit = bit_at(&inputs[1], 0);
                let re: Bit = bit_at(&inputs[2], 0);
                let triggered: bool = trigger.fired(*last_clock, ck);
                *last_clock = ck;
                if clear == Bit::One {
                    buffer.clear();
                    *cursor = 0;
                } else if re != Bit::Zero && triggered {
                    keyboard_dequeue(buffer, cursor);
                }
                let c: char = front_char(buffer);
                let avl: Bit = if c != '\0' {
                    Bit::One
                } else {
                    Bit::Zero
                };
                let ready: Signal = vec![avl];
                assert(ready@ =~= seq![avl]);
                out.push(ready);
                out.push(char_bits(c));
            },
            _ => {},
        }
        assert(self@ =~= after.0);
        assert(plugin_abi::signals(out@) =~= after.1);
        out
    }

    pub(crate) fn serialize_io(&self) -> (out: Vec<u8>)
        requires
            self@.category() is Io,
        ensures
            out@ == saved(self@),
    {
        let mut out: Vec<u8> = Vec::new();
        match self {
            Gate::DotMatrix { grid, .. } => {
                push_bits(&mut out, grid);
            },
            Gate::Tty { row_data, last_row, row, last_clock, .. } => {
                out.push(bit_to_byte(*last_clock));
                push_u32(&mut out, ((*row as u64) % 0x1_0000_0000) as u32);
                push_u32(&mut out, ((row_data.len() as u64) % 0x1_0000_0000) as u32);
                let ghost head = out@;
                for k in 0..row_data.len()
                    invariant
                        out@ == head + row_bytes(super::rows_view(row_data@), k as nat),
                {
                    serialize_chars(&mut out, &row_data[k]);
                    assert(out@ =~= head + row_bytes(
                        super::rows_view(row_data@),
                        (k + 1) as nat,
                    ));
                }
                serialize_chars(&mut out, last_row);
            },
            Gate::Keyboard { buffer, cursor, last_clock, .. } => {
                out.push(bit_to_byte(*last_clock));
                push_u32(&mut out, ((*cursor as u64) % 0x1_0000_0000) as u32);
                serialize_chars(&mut out, buffer);
            },
            _ => {},
        }
        assert(out@ =~= saved(self@));
        out
    }

    pub(crate) fn deserialize_io(&mut self, state: &[u8])
        requires
            old(self)@.category() is Io,
        ensures
            final(self)@ == restored(old(self)@, state@),
    {
        let first: Bit = if state.len() > 0 {
            byte_to_bit(state[0])
        } else {
            Bit::Unknown
        };
        let off: usize = if state.len() > 5 {
            5
        } else {
            state.len()
        };
        match self {
            Gate::DotMatrix { grid, .. } => {
                let n: usize = grid.len();
                *grid = read_bits(state, 0, n, Bit::Unknown);
            },
            Gate::Tty { row_data, last_row, row, last_clock, .. } => {
                *last_clock = first;
                *row = read_u32(state, 1) as usize;
                let (rows, next): (Vec<Vec<char>>, usize) = deserialize_char_rows(state, off);
                *row_data = rows;
                let ghost at = row_offset(state@, 5, state::u32_at(state@, 5) as nat);
                proof {
                    row_offset_nonneg(state@, 5, state::u32_at(state@, 5) as nat);
                }
                *last_row = deserialize_chars(state, next, Ghost(at)).0;
            },
            Gate::Keyboard { buffer, cursor, last_clock, .. } => {
                *last_clock = first;
                *cursor = read_u32(state, 1) as usize;
                *buffer = deserialize_chars(state, off, Ghost(5int)).0;
            },
            _ => {},
        }
        assert(self@ =~= restored(old(self)@, state@));
    }

    pub(crate) fn actions_io(&self) -> (r: Vec<&'static str>)
        requires
            self@.category() is Io,
        ensures
            plugin_abi::names(r@) == action_names(self@),
    {
        let r: Vec<&'static str> = match self {
            Gate::Keyboard { .. } => vec!["key", "delete", "left", "right", "home", "end"],
            _ => Vec::new(),
        };
        assert(plugin_abi::names(r@) =~= action_names(self@));
        r
    }

    pub(crate) fn invoke_io(&mut self, name: &str, arg: Option<Value>) -> (r: Result<
        (),
        ActionError,
    >)
        requires
            old(self)@.category() is Io,
            valid(old(self)@),
        ensures
            (final(self)@, plugin_abi::action_outcome(r)) == invoked(
                old(self)@,
                name@,
                plugin_abi::arg_view(arg),
            ),
    {
        match self {
            Gate::Keyboard { buffer, cursor, capacity, .. } => {
                if text::same(name, "key") {
                    match arg {
                        Some(Value::Int(code)) => {
                            proof {
                                power2::lemma2_to64();
                            }
                            match char::from_u32(low_digits(code, 32)) {
                                Some(c) => {
                                    keyboard_insert(buffer, cursor, *capacity, c);
                                    Ok(())
                                },
                                None => {
                                    let mut reason: String = "not a valid char code: ".to_owned();
                                    text::push_int(&mut reason, code);
                                    Err(
                                        ActionError::InvalidArg {
                                            action: "key".to_owned(),
                                            reason,
                                        },
                                    )
                                },
                            }
                        },
                        other => {
                            let mut reason: String = "expected Int, got ".to_owned();
                            reason.append(plugin_abi::render_arg(&other).as_str());
                            Err(ActionError::InvalidArg { action: "key".to_owned(), reason })
                        },
                    }
                } else if text::same(name, "delete") {
                    if *cursor < buffer.len() {
                        buffer.remove(*cursor);
                    }
                    Ok(())
                } else if text::same(name, "left") {
                    if *cursor > 0 {
                        *cursor = *cursor - 1;
                    }
                    Ok(())
                } else if text::same(name, "right") {
                    if *cursor < buffer.len() {
                        *cursor = *cursor + 1;
                    }
                    Ok(())
                } else if text::same(name, "home") {
                    *cursor = 0;
                    Ok(())
                } else if text::same(name, "end") {
                    *cursor = buffer.len();
                    Ok(())
                } else {
                    Err(ActionError::UnknownAction(name.to_owned()))
                }
            },
            _ => Err(ActionError::UnknownAction(name.to_owned())),
        }
    }

    pub(crate) fn readouts_io(&self) -> (r: Vec<&'static str>)
        requires
            self@.category() is Io,
        ensures
            plugin_abi::names(r@) == readout_names(self@),
    {
        let r: Vec<&'static str> = match self {
            Gate::DotMatrix { .. } => vec!["get"],
            Gate::Tty { .. } => vec!["cursor_row", "cursor_col"],
            Gate::Keyboard { .. } => vec!["get", "avail", "cursor", "len"],
            _ => Vec::new(),
        };
        assert(plugin_abi::names(r@) =~= readout_names(self@));
        r
    }

    pub(crate) fn read_io(&self, name: &str) -> (r: Result<Value, ReadoutError>)
        requires
            self@.category() is Io,
            valid(self@),
        ensures
            plugin_abi::readout_outcome(r) == readout(self@, name@),
    {
        match self {
            Gate::DotMatrix { grid, .. } => {
                if text::same(name, "get") {
                    return Ok(Value::Bits(grid.clone()));
                }
            },
            Gate::Tty { row, last_row, row_data, .. } => {
                if text::same(name, "cursor_row") {
                    return Ok(Value::Int(*row as i64));
                }
                if text::same(name, "cursor_col") {
                    return Ok(Value::Int(last_row.len() as i64));
                }
                if let Some(index) = row_number(name) {
                    let bits: Signal = if index < *row {
                        chars_bits(&row_data[index])
                    } else if index == *row {
                        chars_bits(last_row)
                    } else {
                        Vec::new()
                    };
                    assert(bits@ =~= chars_signal(
                        text_of(row_data@, last_row@, *row).row_text(index as nat),
                    ));
                    return Ok(Value::Bits(bits));
                }
            },
            Gate::Keyboard { buffer, cursor, .. } => {
                let c: char = front_char(buffer);
                if text::same(name, "get") {
                    return Ok(Value::Bits(char_bits(c)));
                }
                if text::same(name, "avail") {
                    return Ok(Value::Bool(c != '\0'));
                }
                if text::same(name, "cursor") {
                    return Ok(Value::Int(*cursor as i64));
                }
                if text::same(name, "len") {
                    return Ok(Value::Int(buffer.len() as i64));
                }
            },
            _ => {},
        }
        Err(ReadoutError::UnknownReadout(name.to_owned()))
    }
}

proof fn row_offset_nonneg(s: Seq<u8>, off: int, k: nat)
    requires
        0 <= off,
    ensures
        0 <= row_offset(s, off, k),
    decreases k,
{
    if k > 0 {
        row_offset_nonneg(s, off, (k - 1) as nat);
    }
}

/// The row number in a readout name of the form `row<N>`.
fn row_number(name: &str) -> (r: Option<usize>)
    ensures
        match r {
            Some(n) => row_index(name@) == Some(n as nat),
            None => row_index(name@) is None,
        },
{
    let chars: Vec<char> = text::chars_of(name);
    proof {
        reveal_strlit("row");
    }
    if chars.len() >= 3 && chars[0] == 'r' && chars[1] == 'o' && chars[2] == 'w' {
        assert(name@.take(3) =~= "row"@);
        assert(name@.skip(3) =~= chars@.subrange(3, chars@.len() as int));
        match text::parse_number(&chars, 3, chars.len(), 10, usize::MAX as u64) {
            Some(v) => Some(v as usize),
            None => None,
        }
    } else {
        proof {
            if name@.len() >= 3 && name@.take(3) == "row"@ {
                assert(name@.take(3)[0] == 'r' && name@.take(3)[1] == 'o' && name@.take(3)[2]
                    == 'w');
            }
        }
        None
    }
}

proof fn char_survives(c: char)
    ensures
        char_with_code(c as u32) == c,
{
    assert(text::is_char_code(c as u32));
}

proof fn chars_survive(s: Seq<u8>, off: int, chars: Seq<char>)
    requires
        0 <= off,
        off + chars_bytes(chars).len() <= s.len(),
        chars.len() < 0x1_0000_0000,
        forall|i: int|
            0 <= i < chars_bytes(chars).len() ==> #[trigger] chars_bytes(chars)[i] == s[off + i],
    ensures
        chars_bytes(chars).len() == 4 + 4 * chars.len(),
        state::u32_at(s, off) == chars.len(),
        chars_at(s, off) == chars,
        after_chars(s, off) == off + chars_bytes(chars).len(),
{
    let all = chars_bytes(chars);
    let n = chars.len() as u32;
    let words = codes(chars);
    assert(all.len() == 4 + 4 * chars.len());
    assert forall|i: int| 0 <= i < 4 implies #[trigger] state::le32(n as nat)[i] == s[off + i] by {
        assert(all[i] == state::le32(n as nat)[i]);
    }
    state::u32_survives(s, off, n);
    assert forall|i: int| 0 <= i < chars.len() implies chars_at(s, off)[i] == chars[i] by {
        let at = off + 4 + 4 * i;
        assert forall|j: int| 0 <= j < 4 implies #[trigger] state::le32(words[i] as nat)[j] == s[at
            + j] by {
            assert((4 * i + j) / 4 == i && (4 * i + j) % 4 == j);
            assert(all[4 + 4 * i + j] == state::words_bytes(words)[4 * i + j]);
        }
        state::u32_survives(s, at, words[i]);
        char_survives(chars[i]);
        assert(chars_at(s, off)[i] == char_with_code(words[i]));
    }
    assert(chars_at(s, off) =~= chars);
}

proof fn row_bytes_prefix(rows: Seq<Seq<char>>, k: nat, n: nat)
    requires
        k <= n,
    ensures
        row_bytes(rows, k).is_prefix_of(row_bytes(rows, n)),
    decreases n,
{
    if k < n {
        row_bytes_prefix(rows, k, (n - 1) as nat);
        assert(row_bytes(rows, (n - 1) as nat).is_prefix_of(row_bytes(rows, n)));
    }
}

proof fn rows_survive(s: Seq<u8>, rows: Seq<Seq<char>>, k: nat)
    requires
        k <= rows.len(),
        rows.len() < 0x1_0000_0000,
        forall|i: int| 0 <= i < rows.len() ==> (#[trigger] rows[i]).len() < 0x1_0000_0000,
        9 + row_bytes(rows, rows.len()).len() <= s.len(),
        forall|i: int|
            0 <= i < row_bytes(rows, rows.len()).len() ==> #[trigger] row_bytes(rows, rows.len())[i]
                == s[9 + i],
    ensures
        row_offset(s, 5, k) == 9 + row_bytes(rows, k).len(),
        forall|j: int| 0 <= j < k ==> #[trigger] chars_at(s, row_offset(s, 5, j as nat)) == rows[j],
    decreases k,
{
    if k > 0 {
        let j = (k - 1) as nat;
        rows_survive(s, rows, j);
        let off = 9 + row_bytes(rows, j).len();
        row_bytes_prefix(rows, k, rows.len());
        let all = row_bytes(rows, rows.len());
        assert forall|i: int|
            0 <= i < chars_bytes(rows[j as int]).len() implies #[trigger] chars_bytes(
            rows[j as int],
        )[i] == s[off + i] by {
            assert(row_bytes(rows, k)[row_bytes(rows, j).len() + i] == chars_bytes(
                rows[j as int],
            )[i]);
            assert(all[row_bytes(rows, j).len() + i] == s[9 + (row_bytes(rows, j).len() + i)]);
        }
        chars_survive(s, off as int, rows[j as int]);
    }
}

proof fn three_parts(s: Seq<u8>, head: Seq<u8>, body: Seq<u8>, tail: Seq<u8>)
    requires
        s == head + body + tail,
    ensures
        s.len() == head.len() + body.len() + tail.len(),
        forall|i: int| 0 <= i < head.len() ==> #[trigger] s[i] == head[i],
        forall|i: int| 0 <= i < body.len() ==> #[trigger] body[i] == s[head.len() + i],
        forall|i: int| 0 <= i < tail.len() ==> #[trigger] tail[i] == s[head.len() + body.len() + i],
{
}

proof fn tty_head(s: Seq<u8>, b: Bit, row: u32, n: u32, rest: Seq<u8>)
    requires
        s == seq![state::byte_of(b)] + state::le32(row as nat) + state::le32(n as nat) + rest,
    ensures
        state::bit_at_byte(s, 0, Bit::Unknown) == b,
        state::u32_at(s, 1) == row,
        state::u32_at(s, 5) == n,
{
    assert(s[0] == state::byte_of(b));
    assert forall|i: int| 0 <= i < 4 implies #[trigger] state::le32(row as nat)[i] == s[1 + i] by {
    }
    state::u32_survives(s, 1, row);
    assert forall|i: int| 0 <= i < 4 implies #[trigger] state::le32(n as nat)[i] == s[5 + i] by {
    }
    state::u32_survives(s, 5, n);
}

proof fn tty_text_survives(s: Seq<u8>, head: Seq<u8>, rows: Seq<Seq<char>>, last: Seq<char>)
    requires
        head.len() == 9,
        s == head + row_bytes(rows, rows.len()) + chars_bytes(last),
        rows.len() < 0x1_0000_0000,
        last.len() < 0x1_0000_0000,
        forall|i: int| 0 <= i < rows.len() ==> (#[trigger] rows[i]).len() < 0x1_0000_0000,
        state::u32_at(s, 5) == rows.len(),
    ensures
        rows_at(s, 5) == rows,
        chars_at(s, row_offset(s, 5, rows.len())) == last,
{
    let body = row_bytes(rows, rows.len());
    three_parts(s, head, body, chars_bytes(last));
    rows_survive(s, rows, rows.len());
    chars_survive(s, (9 + body.len()) as int, last);
    assert(rows_at(s, 5) =~= rows);
}

proof fn tty_bytes_survive(
    s: Seq<u8>,
    last_clock: Bit,
    row_data: Seq<Seq<char>>,
    last_row: Seq<char>,
    row: usize,
)
    requires
        row < 256,
        row_data.len() < 256,
        last_row.len() < 0x1_0000_0000,
        forall|i: int| 0 <= i < row_data.len() ==> (#[trigger] row_data[i]).len() < 0x1_0000_0000,
        s == seq![state::byte_of(last_clock)] + state::le32(row as nat) + state::le32(
            row_data.len(),
        ) + row_bytes(row_data, row_data.len()) + chars_bytes(last_row),
    ensures
        state::bit_at_byte(s, 0, Bit::Unknown) == last_clock,
        state::u32_at(s, 1) == row,
        rows_at(s, 5) == row_data,
        chars_at(s, row_offset(s, 5, state::u32_at(s, 5) as nat)) == last_row,
{
    let body = row_bytes(row_data, row_data.len());
    let tail = chars_bytes(last_row);
    let head = seq![state::byte_of(last_clock)] + state::le32(row as nat) + state::le32(
        row_data.len(),
    );
    assert(s =~= head + (body + tail));
    tty_head(s, last_clock, row as u32, row_data.len() as u32, body + tail);
    tty_text_survives(s, head, row_data, last_row);
}

proof fn small_numbers(row: usize, n: nat)
    requires
        row < 256,
        n < 256,
    ensures
        row as nat % 0x1_0000_0000 == row,
        n % 0x1_0000_0000 == n,
{
}

/// What was saved of a terminal is what is read back.
proof fn tty_fields_survive(
    s: Seq<u8>,
    last_clock: Bit,
    row_data: Seq<Seq<char>>,
    last_row: Seq<char>,
    row: usize,
)
    requires
        row < 256,
        row_data.len() < 256,
        last_row.len() < 0x1_0000_0000,
        forall|i: int| 0 <= i < row_data.len() ==> (#[trigger] row_data[i]).len() < 0x1_0000_0000,
        s == seq![state::byte_of(last_clock)] + state::le32(row as nat % 0x1_0000_0000)
            + state::le32(row_data.len() % 0x1_0000_0000) + row_bytes(row_data, row_data.len())
            + chars_bytes(last_row),
    ensures
        state::bit_at_byte(s, 0, Bit::Unknown) == last_clock,
        state::u32_at(s, 1) as usize == row,
        rows_at(s, 5) == row_data,
        chars_at(s, row_offset(s, 5, state::u32_at(s, 5) as nat)) == last_row,
{
    small_numbers(row, row_data.len());
    tty_bytes_survive(s, last_clock, row_data, last_row, row);
}

proof fn tty_round_trip(g: GateView, h: GateView)
    requires
        g is Tty,
        valid(g),
        reset(g) == reset(h),
    ensures
        restored(h, saved(g)) == g,
{
    if let GateView::Tty { last_clock, row_data, last_row, row, .. } = g {
        tty_fields_survive(saved(g), last_clock, row_data, last_row, row);
    }
}

proof fn keyboard_bytes_survive(s: Seq<u8>, last_clock: Bit, buffer: Seq<char>, cursor: u32)
    requires
        buffer.len() < 0x1_0000_0000,
        s == seq![state::byte_of(last_clock)] + state::le32(cursor as nat) + chars_bytes(buffer),
    ensures
        state::bit_at_byte(s, 0, Bit::Unknown) == last_clock,
        state::u32_at(s, 1) == cursor,
        chars_at(s, 5) == buffer,
{
    three_parts(
        s,
        seq![state::byte_of(last_clock)],
        state::le32(cursor as nat),
        chars_bytes(buffer),
    );
    state::u32_survives(s, 1, cursor);
    chars_survive(s, 5, buffer);
    assert(s[0] == seq![state::byte_of(last_clock)][0]);
}

proof fn keyboard_fields_survive(s: Seq<u8>, last_clock: Bit, buffer: Seq<char>, cursor: usize)
    requires
        cursor <= buffer.len() < 0x1_0000,
        s == seq![state::byte_of(last_clock)] + state::le32(cursor as nat % 0x1_0000_0000)
            + chars_bytes(buffer),
    ensures
        state::bit_at_byte(s, 0, Bit::Unknown) == last_clock,
        state::u32_at(s, 1) as usize == cursor,
        chars_at(s, 5) == buffer,
{
    assert(cursor as nat % 0x1_0000_0000 == cursor);
    keyboard_bytes_survive(s, last_clock, buffer, cursor as u32);
}

proof fn keyboard_round_trip(g: GateView, h: GateView)
    requires
        g is Keyboard,
        valid(g),
        reset(g) == reset(h),
    ensures
        restored(h, saved(g)) == g,
{
    if let GateView::Keyboard { last_clock, buffer, cursor, .. } = g {
        keyboard_fields_survive(saved(g), last_clock, buffer, cursor);
    }
}

proof fn dot_matrix_round_trip(g: GateView, h: GateView)
    requires
        g is DotMatrix,
        valid(g),
        valid(h),
        reset(g) == reset(h),
    ensures
        restored(h, saved(g)) == g,
{
    if let GateView::DotMatrix { grid, .. } = g {
        state::bits_survive(saved(g), 0, grid, Bit::Unknown);
    }
}

/// Saving a gate of this category and restoring the bytes into a gate of the same
/// configuration gives the saved gate back.
pub proof fn io_round_trip(g: GateView, h: GateView)
    requires
        g.category() is Io,
        valid(g),
        valid(h),
        reset(g) == reset(h),
    ensures
        restored(h, saved(g)) == g,
{
    if g is DotMatrix {
        dot_matrix_round_trip(g, h);
    } else if g is Tty {
        tty_round_trip(g, h);
    } else {
        keyboard_round_trip(g, h);
    }
}

/// A terminal's text fits its size: as many committed rows as it has besides the last, no row
/// longer than its columns, and the row in progress is one of its rows.
pub open spec fn text_fits(t: TtyText, rows: u8, cols: u8) -> bool {
    &&& rows >= 1
    &&& cols >= 1
    &&& t.rows.len() == rows - 1
    &&& t.row <= rows - 1
    &&& t.last.len() <= cols
    &&& forall|i: int| 0 <= i < t.rows.len() ==> (#[trigger] t.rows[i]).len() <= cols
}

/// Typing keeps a terminal's text within its size. Backspace takes the last character of the
/// row in progress, if it has one, and reaches no committed row; form feed empties all rows;
/// other control characters but newline and carriage return change nothing; and a printable
/// character ends up last in the row in progress.
pub proof fn typing_keeps_the_text_in_place(t: TtyText, rows: u8, cols: u8, c: char)
    requires
        text_fits(t, rows, cols),
    ensures
        text_fits(t.typed(cols, c), rows, cols),
        c == '\u{8}' ==> t.typed(cols, c).rows == t.rows && t.typed(cols, c).row == t.row
            && t.typed(cols, c).last == (if t.last.len() > 0 {
            t.last.drop_last()
        } else {
            t.last
        }),
        c == '\u{c}' ==> t.typed(cols, c).row == 0 && t.typed(cols, c).last.len() == 0 && forall|
            i: int,
        |
            0 <= i < rows - 1 ==> (#[trigger] t.typed(cols, c).rows[i]).len() == 0,
        is_control(c) && c != '\u{c}' && c != '\u{8}' && c != '\n' && c != '\r' ==> t.typed(
            cols,
            c,
        ) == t,
        !is_control(c) ==> t.typed(cols, c).last.len() > 0 && t.typed(cols, c).last.last() == c,
{
    let done = t.committed();
    assert forall|i: int| 0 <= i < done.rows.len() implies (#[trigger] done.rows[i]).len()
        <= cols by {
        if t.row < t.rows.len() {
            if i != t.row {
                assert(done.rows[i] == t.rows[i]);
            }
        } else if i + 1 < t.rows.len() {
            assert(done.rows[i] == t.rows[i + 1]);
        }
    }
}

/// Characters typed on a keyboard come out in the order they were typed: a character pressed
/// at the end of the queue is behind all others, and taking one removes the first.
pub proof fn keyboard_is_a_queue(buffer: Seq<char>, capacity: u16, c: char)
    requires
        buffer.len() < capacity,
    ensures
        pressed(buffer, buffer.len() as usize, capacity, c).0 == buffer.push(c),
        dequeued(buffer.push(c), (buffer.len() + 1) as usize).0 == buffer.push(c).drop_first(),
        buffer.len() > 0 ==> front(buffer.push(c)) == front(buffer),
{
    assert(buffer.insert(buffer.len() as int, c) =~= buffer.push(c));
}

} // verus!
