//! Reads test scripts.
use vstd::prelude::*;
use vstd::string::StringExecFns;
use crate::ctest;
use crate::ctest::{Cmp, Literal, ParseError, Statement, StatementView};
use crate::text;

verus! {

/// The characters that count as white space.
pub open spec fn is_white(c: char) -> bool {
    let v = c as u32;
    ||| 0x9 <= v <= 0xD
    ||| v == 0x20
    ||| v == 0x85
    ||| v == 0xA0
    ||| v == 0x1680
    ||| 0x2000 <= v <= 0x200A
    ||| v == 0x2028
    ||| v == 0x2029
    ||| v == 0x202F
    ||| v == 0x205F
    ||| v == 0x3000
}

/// The characters of action and readout names.
pub open spec fn is_word(c: char) -> bool {
    ('a' <= c <= 'z') || ('A' <= c <= 'Z') || ('0' <= c <= '9') || c == '_'
}

/// A text without the white space in front.
pub open spec fn trim_start(s: Seq<char>) -> Seq<char>
    decreases s.len(),
{
    if s.len() > 0 && is_white(s[0]) {
        trim_start(s.drop_first())
    } else {
        s
    }
}

/// A text without the white space behind.
pub open spec fn trim_end(s: Seq<char>) -> Seq<char>
    decreases s.len(),
{
    if s.len() > 0 && is_white(s.last()) {
        trim_end(s.drop_last())
    } else {
        s
    }
}

/// A text without the white space around it.
pub open spec fn trimmed(s: Seq<char>) -> Seq<char> {
    trim_end(trim_start(s))
}

/// What follows a beginning, if the text begins so.
pub open spec fn stripped(s: Seq<char>, prefix: Seq<char>) -> Option<Seq<char>> {
    if prefix.is_prefix_of(s) {
        Some(s.skip(prefix.len() as int))
    } else {
        None
    }
}

/// Where a character first occurs, or the length of the text.
pub open spec fn position(s: Seq<char>, c: char) -> nat
    decreases s.len(),
{
    if s.len() == 0 || s[0] == c {
        0
    } else {
        position(s.drop_first(), c) + 1
    }
}

/// How many characters of a name the text starts with.
pub open spec fn word_length(s: Seq<char>) -> nat
    decreases s.len(),
{
    if s.len() == 0 || !is_word(s[0]) {
        0
    } else {
        word_length(s.drop_first()) + 1
    }
}

/// A line without its comment.
pub open spec fn uncommented(s: Seq<char>) -> Seq<char> {
    s.take(position(s, '#') as int)
}

/// The lines of a text.
pub open spec fn lines(s: Seq<char>) -> Seq<Seq<char>>
    decreases s.len(),
{
    let i = position(s, '\n') as int;
    if i < s.len() {
        seq![s.take(i)] + lines(s.skip(i + 1))
    } else {
        seq![s]
    }
}

/// The literal that a text is.
pub open spec fn literal(s: Seq<char>) -> Option<Literal> {
    if stripped(s, "0x"@) is Some || stripped(s, "0X"@) is Some {
        match text::parsed(s.skip(2), 16, u64::MAX as nat) {
            Some(n) => Some(Literal::Hex(n as u64)),
            None => None,
        }
    } else if stripped(s, "0b"@) is Some || stripped(s, "0B"@) is Some {
        match text::parsed(s.skip(2), 2, u64::MAX as nat) {
            Some(n) => Some(Literal::Bin(n as u64)),
            None => None,
        }
    } else if s == "on"@ || s == "true"@ {
        Some(Literal::Bool(true))
    } else if s == "off"@ || s == "false"@ {
        Some(Literal::Bool(false))
    } else {
        match text::parsed(s, 10, u64::MAX as nat) {
            Some(n) => Some(Literal::Dec(n as u64)),
            None => None,
        }
    }
}

/// What is said of a text that is no literal.
pub open spec fn bad_literal(s: Seq<char>) -> Seq<char> {
    "invalid literal `"@ + s + "`"@
}

/// A component, the action or readout named after the arrow, and what follows.
pub struct Arrow {
    pub component: Seq<char>,
    pub name: Seq<char>,
    pub rest: Seq<char>,
}

/// Reads `component[<id>] -> <name>`.
pub open spec fn arrow(s: Seq<char>) -> Result<Arrow, Seq<char>> {
    match stripped(trimmed(s), "component"@) {
        None => Err("expected `component[...]`"@),
        Some(s) => {
            let s = trim_start(s);
            if s.len() == 0 || s[0] != '[' {
                Err("expected `[` after `component`"@)
            } else {
                let s = s.drop_first();
                let close = position(s, ']') as int;
                if close >= s.len() {
                    Err("missing closing `]`"@)
                } else {
                    let id = trimmed(s.take(close));
                    if id.len() == 0 {
                        Err("component id must not be empty"@)
                    } else {
                        match stripped(trim_start(s.skip(close + 1)), "->"@) {
                            None => Err("expected `->` after `component[...]`"@),
                            Some(s) => {
                                let s = trim_start(s);
                                let end = word_length(s) as int;
                                if end == 0 {
                                    Err("expected an action/readout name after `->`"@)
                                } else {
                                    Ok(Arrow { component: id, name: s.take(end), rest: s.skip(end) })
                                }
                            },
                        }
                    }
                }
            }
        },
    }
}

/// Reads what follows an action's name: nothing, or a literal in parentheses.
pub open spec fn action_arg(s: Seq<char>) -> Result<Option<Literal>, Seq<char>> {
    if s.len() == 0 {
        Ok(None)
    } else if s.len() < 2 || s[0] != '(' || s.last() != ')' {
        Err("expected `(<value>)` after action name, or nothing"@)
    } else {
        let inner = trimmed(s.subrange(1, s.len() - 1));
        match literal(inner) {
            Some(l) => Ok(Some(l)),
            None => Err(bad_literal(inner)),
        }
    }
}

/// Reads what follows `simulate`: nothing, or a number.
pub open spec fn simulate_statement(s: Seq<char>) -> Result<StatementView, Seq<char>> {
    let s = trimmed(s);
    if s.len() == 0 {
        Ok(StatementView::Simulate { ticks: None })
    } else {
        match text::parsed(s, 10, u32::MAX as nat) {
            Some(n) => Ok(StatementView::Simulate { ticks: Some(n as u32) }),
            None => Err("expected an integer tick count after `simulate`"@),
        }
    }
}

/// Reads what follows the readout in an assertion.
pub open spec fn comparison(s: Seq<char>) -> Result<(Cmp, Literal), Seq<char>> {
    let s = trimmed(s);
    if stripped(s, "=="@) is None && stripped(s, "!="@) is None {
        Err("expected `==` or `!=` in assert"@)
    } else {
        let value = trimmed(s.skip(2));
        match literal(value) {
            None => Err(bad_literal(value)),
            Some(l) => if stripped(s, "=="@) is Some {
                Ok((Cmp::Eq, l))
            } else {
                Ok((Cmp::Ne, l))
            },
        }
    }
}

/// Reads what follows `assert`.
pub open spec fn assert_statement(s: Seq<char>) -> Result<StatementView, Seq<char>> {
    match arrow(trimmed(s)) {
        Err(m) => Err(m),
        Ok(a) => match comparison(a.rest) {
            Err(m) => Err(m),
            Ok((op, expected)) => Ok(
                StatementView::Assert { component: a.component, readout: a.name, op, expected },
            ),
        },
    }
}

/// Reads an action on a component.
pub open spec fn action_statement(s: Seq<char>) -> Result<StatementView, Seq<char>> {
    match arrow(s) {
        Err(m) => Err(m),
        Ok(a) => match action_arg(trimmed(a.rest)) {
            Err(m) => Err(m),
            Ok(arg) => Ok(
                StatementView::Action { component: a.component, action: a.name, arg },
            ),
        },
    }
}

/// Reads a line that is not empty.
pub open spec fn statement(s: Seq<char>) -> Result<StatementView, Seq<char>> {
    match stripped(s, "simulate"@) {
        Some(rest) => simulate_statement(rest),
        None => match stripped(s, "assert"@) {
            Some(rest) => assert_statement(rest),
            None => action_statement(s),
        },
    }
}

/// The statements on the first `k` lines with their line numbers, counted from 1, or the first
/// line that is no statement and why. Comments and empty lines say nothing.
pub open spec fn script(all: Seq<Seq<char>>, k: nat) -> Result<
    Seq<(nat, StatementView)>,
    (nat, Seq<char>),
>
    decreases k,
{
    if k == 0 {
        Ok(Seq::empty())
    } else {
        match script(all, (k - 1) as nat) {
            Err(e) => Err(e),
            Ok(list) => {
                let line = trimmed(uncommented(all[k - 1]));
                if line.len() == 0 {
                    Ok(list)
                } else {
                    match statement(line) {
                        Ok(s) => Ok(list.push((k, s))),
                        Err(m) => Err((k, m)),
                    }
                }
            },
        }
    }
}

fn white(c: char) -> (r: bool)
    ensures
        r == is_white(c),
{
    let v: u32 = c as u32;
    (0x9 <= v && v <= 0xD) || v == 0x20 || v == 0x85 || v == 0xA0 || v == 0x1680 || (0x2000 <= v && v
        <= 0x200A) || v == 0x2028 || v == 0x2029 || v == 0x202F || v == 0x205F || v == 0x3000
}

fn word(c: char) -> (r: bool)
    ensures
        r == is_word(c),
{
    ('a' <= c && c <= 'z') || ('A' <= c && c <= 'Z') || ('0' <= c && c <= '9') || c == '_'
}

/// Part of a text.
#[derive(Clone, Copy)]
struct Span {
    from: usize,
    to: usize,
}

impl Span {
    /// The span lies in the text.
    spec fn fits(self, chars: Seq<char>) -> bool {
        self.from <= self.to <= chars.len()
    }

    spec fn of(self, chars: Seq<char>) -> Seq<char> {
        chars.subrange(self.from as int, self.to as int)
    }
}

fn skip_white(chars: &Vec<char>, s: Span) -> (r: Span)
    requires
        s.fits(chars@),
    ensures
        r.fits(chars@),
        r.of(chars@) == trim_start(s.of(chars@)),
        s.from <= r.from,
        r.to == s.to,
{
    let mut from: usize = s.from;
    while from < s.to && white(chars[from])
        invariant
            s.from <= from <= s.to <= chars@.len(),
            trim_start(s.of(chars@)) == trim_start(chars@.subrange(from as int, s.to as int)),
        decreases s.to - from,
    {
        assert(chars@.subrange(from as int, s.to as int).drop_first() =~= chars@.subrange(
            from + 1,
            s.to as int,
        ));
        from = from + 1;
    }
    Span { from, to: s.to }
}

fn cut_white(chars: &Vec<char>, s: Span) -> (r: Span)
    requires
        s.fits(chars@),
    ensures
        r.fits(chars@),
        r.of(chars@) == trim_end(s.of(chars@)),
        r.from == s.from,
        r.to <= s.to,
{
    let mut to: usize = s.to;
    while to > s.from && white(chars[to - 1])
        invariant
            s.from <= to <= s.to <= chars@.len(),
            trim_end(s.of(chars@)) == trim_end(chars@.subrange(s.from as int, to as int)),
        decreases to,
    {
        assert(chars@.subrange(s.from as int, to as int).drop_last() =~= chars@.subrange(
            s.from as int,
            to - 1,
        ));
        to = to - 1;
    }
    Span { from: s.from, to }
}

fn trim(chars: &Vec<char>, s: Span) -> (r: Span)
    requires
        s.fits(chars@),
    ensures
        r.fits(chars@),
        r.of(chars@) == trimmed(s.of(chars@)),
        s.from <= r.from,
        r.to <= s.to,
{
    let inner: Span = skip_white(chars, s);
    cut_white(chars, inner)
}

/// The span after a beginning, if the span begins so.
fn strip(chars: &Vec<char>, s: Span, prefix: &str) -> (r: Option<Span>)
    requires
        s.fits(chars@),
    ensures
        match (r, stripped(s.of(chars@), prefix@)) {
            (Some(a), Some(b)) => a.fits(chars@) && a.of(chars@) == b && a.to == s.to && a.from
                == s.from + prefix@.len(),
            (None, None) => true,
            _ => false,
        },
{
    let p: Vec<char> = text::chars_of(prefix);
    let ghost whole = s.of(chars@);
    if s.to - s.from < p.len() {
        return None;
    }
    for i in 0..p.len()
        invariant
            s.fits(chars@),
            whole == s.of(chars@),
            p@ == prefix@,
            p@.len() <= s.to - s.from,
            forall|j: int| 0 <= j < i ==> whole[j] == p@[j],
    {
        if chars[s.from + i] != p[i] {
            assert(whole[i as int] != prefix@[i as int]);
            return None;
        }
    }
    assert(prefix@ =~= whole.subrange(0, prefix@.len() as int));
    let r: Span = Span { from: s.from + p.len(), to: s.to };
    assert(r.of(chars@) =~= whole.skip(prefix@.len() as int));
    Some(r)
}

/// Where a character first occurs in the span, or its end.
fn find(chars: &Vec<char>, s: Span, c: char) -> (r: usize)
    requires
        s.fits(chars@),
    ensures
        s.from <= r <= s.to,
        r - s.from == position(s.of(chars@), c),
{
    let mut i: usize = s.from;
    while i < s.to && chars[i] != c
        invariant
            s.from <= i <= s.to <= chars@.len(),
            position(s.of(chars@), c) == (i - s.from) + position(
                chars@.subrange(i as int, s.to as int),
                c,
            ),
        decreases s.to - i,
    {
        assert(chars@.subrange(i as int, s.to as int).drop_first() =~= chars@.subrange(
            i + 1,
            s.to as int,
        ));
        i = i + 1;
    }
    i
}

/// Where the name at the start of the span ends.
fn find_word_end(chars: &Vec<char>, s: Span) -> (r: usize)
    requires
        s.fits(chars@),
    ensures
        s.from <= r <= s.to,
        r - s.from == word_length(s.of(chars@)),
{
    let mut i: usize = s.from;
    while i < s.to && word(chars[i])
        invariant
            s.from <= i <= s.to <= chars@.len(),
            word_length(s.of(chars@)) == (i - s.from) + word_length(
                chars@.subrange(i as int, s.to as int),
            ),
        decreases s.to - i,
    {
        assert(chars@.subrange(i as int, s.to as int).drop_first() =~= chars@.subrange(
            i + 1,
            s.to as int,
        ));
        i = i + 1;
    }
    i
}

fn parse_literal(chars: &Vec<char>, s: Span) -> (r: Result<Literal, String>)
    requires
        s.fits(chars@),
    ensures
        match (r, literal(s.of(chars@))) {
            (Ok(a), Some(b)) => a == b,
            (Err(m), None) => m@ == bad_literal(s.of(chars@)),
            _ => false,
        },
{
    let ghost whole = s.of(chars@);
    let source: String = text::string_of(chars, s.from, s.to);
    let mut message: String = "invalid literal `".to_owned();
    message.append(source.as_str());
    message.append("`");
    assert(message@ =~= bad_literal(whole));
    proof {
        reveal_strlit("0x");
        reveal_strlit("0X");
        reveal_strlit("0b");
        reveal_strlit("0B");
    }
    let lower: Option<Span> = strip(chars, s, "0x");
    let upper: Option<Span> = strip(chars, s, "0X");
    if lower.is_some() || upper.is_some() {
        assert(chars@.subrange(s.from + 2, s.to as int) =~= whole.skip(2));
        return match text::parse_number(chars, s.from + 2, s.to, 16, u64::MAX) {
            Some(n) => Ok(Literal::Hex(n)),
            None => Err(message),
        };
    }
    let lower: Option<Span> = strip(chars, s, "0b");
    let upper: Option<Span> = strip(chars, s, "0B");
    if lower.is_some() || upper.is_some() {
        assert(chars@.subrange(s.from + 2, s.to as int) =~= whole.skip(2));
        return match text::parse_number(chars, s.from + 2, s.to, 2, u64::MAX) {
            Some(n) => Ok(Literal::Bin(n)),
            None => Err(message),
        };
    }
    if text::same(source.as_str(), "on") || text::same(source.as_str(), "true") {
        return Ok(Literal::Bool(true));
    }
    if text::same(source.as_str(), "off") || text::same(source.as_str(), "false") {
        return Ok(Literal::Bool(false));
    }
    match text::parse_number(chars, s.from, s.to, 10, u64::MAX) {
        Some(n) => Ok(Literal::Dec(n)),
        None => Err(message),
    }
}

/// Reads `component[<id>] -> <name>`: the id, the name, and what follows.
fn parse_component_arrow(chars: &Vec<char>, s: Span) -> (r: Result<(Span, Span, Span), String>)
    requires
        s.fits(chars@),
    ensures
        match (r, arrow(s.of(chars@))) {
            (Ok((id, name, rest)), Ok(a)) => id.fits(chars@) && name.fits(chars@) && rest.fits(
                chars@,
            ) && id.of(chars@) == a.component && name.of(chars@) == a.name && rest.of(chars@)
                == a.rest,
            (Err(m), Err(want)) => m@ == want,
            _ => false,
        },
{
    let inner: Span = trim(chars, s);
    let after: Span = match strip(chars, inner, "component") {
        Some(after) => after,
        None => {
            return Err("expected `component[...]`".to_owned());
        },
    };
    let open: Span = skip_white(chars, after);
    let ghost o = open.of(chars@);
    if open.from >= open.to || chars[open.from] != '[' {
        assert(o.len() == 0 || o[0] != '[');
        return Err("expected `[` after `component`".to_owned());
    }
    let body: Span = Span { from: open.from + 1, to: open.to };
    assert(body.of(chars@) =~= o.drop_first());
    let close: usize = find(chars, body, ']');
    if close >= body.to {
        return Err("missing closing `]`".to_owned());
    }
    let named: Span = Span { from: body.from, to: close };
    assert(named.of(chars@) =~= body.of(chars@).take(close - body.from));
    let id: Span = trim(chars, named);
    if id.from >= id.to {
        assert(id.of(chars@).len() == 0);
        return Err("component id must not be empty".to_owned());
    }
    assert(id.of(chars@).len() > 0);
    let behind: Span = Span { from: close + 1, to: body.to };
    assert(behind.of(chars@) =~= body.of(chars@).skip(close - body.from + 1));
    let behind: Span = skip_white(chars, behind);
    let after: Span = match strip(chars, behind, "->") {
        Some(after) => after,
        None => {
            return Err("expected `->` after `component[...]`".to_owned());
        },
    };
    let target: Span = skip_white(chars, after);
    let end: usize = find_word_end(chars, target);
    if end == target.from {
        return Err("expected an action/readout name after `->`".to_owned());
    }
    let name: Span = Span { from: target.from, to: end };
    let rest: Span = Span { from: end, to: target.to };
    assert(name.of(chars@) =~= target.of(chars@).take(end - target.from));
    assert(rest.of(chars@) =~= target.of(chars@).skip(end - target.from));
    Ok((id, name, rest))
}

fn parse_action_arg(chars: &Vec<char>, s: Span) -> (r: Result<Option<Literal>, String>)
    requires
        s.fits(chars@),
    ensures
        match (r, action_arg(s.of(chars@))) {
            (Ok(a), Ok(b)) => a == b,
            (Err(m), Err(want)) => m@ == want,
            _ => false,
        },
{
    let ghost whole = s.of(chars@);
    if s.from >= s.to {
        assert(whole.len() == 0);
        return Ok(None);
    }
    assert(whole[0] == chars@[s.from as int]);
    assert(whole.last() == chars@[s.to - 1]);
    if s.to - s.from < 2 || chars[s.from] != '(' || chars[s.to - 1] != ')' {
        return Err("expected `(<value>)` after action name, or nothing".to_owned());
    }
    let inside: Span = Span { from: s.from + 1, to: s.to - 1 };
    assert(inside.of(chars@) =~= whole.subrange(1, whole.len() - 1));
    let inner: Span = trim(chars, inside);
    match parse_literal(chars, inner) {
        Ok(l) => Ok(Some(l)),
        Err(m) => Err(m),
    }
}

fn parse_simulate(chars: &Vec<char>, s: Span) -> (r: Result<Statement, String>)
    requires
        s.fits(chars@),
    ensures
        match (r, simulate_statement(s.of(chars@))) {
            (Ok(a), Ok(b)) => a@ == b,
            (Err(m), Err(want)) => m@ == want,
            _ => false,
        },
{
    let inner: Span = trim(chars, s);
    if inner.from >= inner.to {
        assert(inner.of(chars@).len() == 0);
        return Ok(Statement::Simulate { ticks: None });
    }
    assert(inner.of(chars@).len() > 0);
    match text::parse_number(chars, inner.from, inner.to, 10, u32::MAX as u64) {
        Some(n) => {
            assert(n <= u32::MAX);
            Ok(Statement::Simulate { ticks: Some(n as u32) })
        },
        None => Err("expected an integer tick count after `simulate`".to_owned()),
    }
}

fn parse_comparison(chars: &Vec<char>, s: Span) -> (r: Result<(Cmp, Literal), String>)
    requires
        s.fits(chars@),
    ensures
        match (r, comparison(s.of(chars@))) {
            (Ok(a), Ok(b)) => a == b,
            (Err(m), Err(want)) => m@ == want,
            _ => false,
        },
{
    let inner: Span = trim(chars, s);
    proof {
        reveal_strlit("==");
        reveal_strlit("!=");
    }
    let (op, after): (Cmp, Span) = match strip(chars, inner, "==") {
        Some(after) => (Cmp::Eq, after),
        None => match strip(chars, inner, "!=") {
            Some(after) => (Cmp::Ne, after),
            None => {
                return Err("expected `==` or `!=` in assert".to_owned());
            },
        },
    };
    let value: Span = trim(chars, after);
    match parse_literal(chars, value) {
        Ok(l) => Ok((op, l)),
        Err(m) => Err(m),
    }
}

fn parse_assert(chars: &Vec<char>, s: Span) -> (r: Result<Statement, String>)
    requires
        s.fits(chars@),
    ensures
        match (r, assert_statement(s.of(chars@))) {
            (Ok(a), Ok(b)) => a@ == b,
            (Err(m), Err(want)) => m@ == want,
            _ => false,
        },
{
    let inner: Span = trim(chars, s);
    match parse_component_arrow(chars, inner) {
        Err(m) => Err(m),
        Ok((id, name, rest)) => match parse_comparison(chars, rest) {
            Err(m) => Err(m),
            Ok((op, expected)) => Ok(
                Statement::Assert {
                    component: text::string_of(chars, id.from, id.to),
                    readout: text::string_of(chars, name.from, name.to),
                    cmp: op,
                    expected,
                },
            ),
        },
    }
}

fn parse_action(chars: &Vec<char>, s: Span) -> (r: Result<Statement, String>)
    requires
        s.fits(chars@),
    ensures
        match (r, action_statement(s.of(chars@))) {
            (Ok(a), Ok(b)) => a@ == b,
            (Err(m), Err(want)) => m@ == want,
            _ => false,
        },
{
    match parse_component_arrow(chars, s) {
        Err(m) => Err(m),
        Ok((id, name, rest)) => {
            let trailer: Span = trim(chars, rest);
            match parse_action_arg(chars, trailer) {
                Err(m) => Err(m),
                Ok(arg) => Ok(
                    Statement::Action {
                        component: text::string_of(chars, id.from, id.to),
                        action: text::string_of(chars, name.from, name.to),
                        arg,
                    },
                ),
            }
        },
    }
}

fn parse_statement(chars: &Vec<char>, s: Span) -> (r: Result<Statement, String>)
    requires
        s.fits(chars@),
    ensures
        match (r, statement(s.of(chars@))) {
            (Ok(a), Ok(b)) => a@ == b,
            (Err(m), Err(want)) => m@ == want,
            _ => false,
        },
{
    match strip(chars, s, "simulate") {
        Some(rest) => {
            return parse_simulate(chars, rest);
        },
        None => {},
    }
    match strip(chars, s, "assert") {
        Some(rest) => {
            return parse_assert(chars, rest);
        },
        None => {},
    }
    parse_action(chars, s)
}

proof fn script_stays_bad(all: Seq<Seq<char>>, j: nat, k: nat)
    requires
        j <= k,
        script(all, j) is Err,
    ensures
        script(all, k) == script(all, j),
    decreases k,
{
    if j < k {
        script_stays_bad(all, j, (k - 1) as nat);
    }
}

/// The contents of a list of statements with their line numbers.
pub open spec fn statements(list: Seq<(usize, Statement)>) -> Seq<(nat, StatementView)> {
    Seq::new(list.len(), |i: int| (list[i].0 as nat, list[i].1@))
}

/// Reads a script.
pub fn parse(source: &str) -> (r: Result<Vec<(usize, Statement)>, ParseError>)
    ensures
        match (r, script(lines(source@), lines(source@).len())) {
            (Ok(list), Ok(want)) => statements(list@) == want,
            (Err(e), Err((line, message))) => e.line == line && e.message@ == message,
            _ => false,
        },
{
    let chars: Vec<char> = text::chars_of(source);
    let ghost all = lines(source@);
    let mut list: Vec<(usize, Statement)> = Vec::new();
    let mut pos: usize = 0;
    let mut k: usize = 0;
    assert(statements(list@) =~= Seq::<(nat, StatementView)>::empty());
    assert(chars@.skip(0) =~= chars@);
    assert(all.skip(0) =~= all);
    loop
        invariant
            chars@ == source@,
            all == lines(source@),
            pos <= chars@.len(),
            k <= pos,
            k < all.len(),
            all.skip(k as int) == lines(chars@.skip(pos as int)),
            script(all, k as nat) == Ok::<Seq<(nat, StatementView)>, (nat, Seq<char>)>(
                statements(list@),
            ),
        decreases chars@.len() - pos + 1,
    {
        let rest: Span = Span { from: pos, to: chars.len() };
        assert(rest.of(chars@) =~= chars@.skip(pos as int));
        let end: usize = find(&chars, rest, '\n');
        let raw: Span = Span { from: pos, to: end };
        assert(raw.of(chars@) =~= chars@.skip(pos as int).take(end - pos));
        assert(all.skip(k as int)[0] == all[k as int]);
        assert(all[k as int] == raw.of(chars@));
        let hash: usize = find(&chars, raw, '#');
        let kept: Span = Span { from: pos, to: hash };
        assert(kept.of(chars@) =~= uncommented(raw.of(chars@)));
        let line: Span = trim(&chars, kept);
        assert(line.of(chars@) == trimmed(uncommented(all[k as int])));
        if line.from < line.to {
            assert(line.of(chars@).len() > 0);
            match parse_statement(&chars, line) {
                Ok(s) => {
                    let ghost before = list@;
                    list.push((k + 1, s));
                    assert(statements(list@) =~= statements(before).push(((k + 1) as nat, s@)));
                },
                Err(message) => {
                    proof {
                        script_stays_bad(all, (k + 1) as nat, all.len());
                    }
                    return Err(ParseError { line: k + 1, message });
                },
            }
        } else {
            assert(line.of(chars@).len() == 0);
        }
        if end >= chars.len() {
            assert(all.skip(k as int).len() == 1);
            assert(all.len() == k + 1);
            return Ok(list);
        }
        proof {
            let tail = chars@.skip(pos as int).skip(end - pos + 1);
            assert(tail =~= chars@.skip(end + 1));
            let first = seq![chars@.skip(pos as int).take(end - pos)];
            assert(all.skip(k as int) == first + lines(tail));
            assert(all.skip(k + 1) =~= all.skip(k as int).skip(1));
            assert((first + lines(tail)).skip(1) =~= lines(tail));
            assert(lines(tail).len() > 0);
        }
        k = k + 1;
        pos = end + 1;
    }
}

/// A literal as it reads in a message can be written in a script: it is read as the same
/// literal.
pub proof fn literals_are_read_back(l: Literal)
    ensures
        literal(l.text()) == Some(l),
{
    reveal_strlit("0x");
    reveal_strlit("0X");
    reveal_strlit("0b");
    reveal_strlit("0B");
    reveal_strlit("on");
    reveal_strlit("true");
    reveal_strlit("off");
    reveal_strlit("false");
    let s = l.text();
    match l {
        Literal::Hex(n) => {
            text::numerals_are_read_back(n as nat, 16, u64::MAX as nat);
            assert(s.skip(2) =~= text::numeral(n as nat, 16));
            assert("0x"@.is_prefix_of(s));
        },
        Literal::Bin(n) => {
            text::numerals_are_read_back(n as nat, 2, u64::MAX as nat);
            assert(s.skip(2) =~= text::numeral(n as nat, 2));
            assert("0b"@.is_prefix_of(s));
            assert(s[1] != "0x"@[1] && s[1] != "0X"@[1]);
        },
        Literal::Dec(n) => {
            text::numerals_are_read_back(n as nat, 10, u64::MAX as nat);
            text::decimal_is_numeral(n as nat);
            assert(forall|i: int|
                0 <= i < s.len() ==> text::digit_value(#[trigger] s[i], 10) is Some);
            if s.len() > 1 {
                assert(text::digit_value(s[1], 10) is Some);
                assert(s[1] != "0x"@[1] && s[1] != "0X"@[1]);
                assert(s[1] != "0b"@[1] && s[1] != "0B"@[1]);
            }
            assert(text::digit_value(s[0], 10) is Some);
            assert(s[0] != "on"@[0] && s[0] != "true"@[0] && s[0] != "false"@[0]);
        },
        Literal::Bool(_) => {
            assert(s[0] != "0x"@[0]);
            assert("false"@[0] != "on"@[0] && "false"@[0] != "true"@[0]);
        },
    }
}

} // verus!
