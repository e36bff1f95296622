//! How scripts are written: what the lines, comments and statements of a text are.
use vstd::prelude::*;
use super::parser;
use super::parser::Arrow;
use super::{Cmp, Literal, StatementView};
use crate::text;

verus! {

/// A text begins and ends with characters that are not white space.
pub open spec fn is_bare(s: Seq<char>) -> bool {
    s.len() > 0 && !parser::is_white(s[0]) && !parser::is_white(s.last())
}

/// All characters of a text are white space.
pub open spec fn is_blank(s: Seq<char>) -> bool {
    forall|i: int| 0 <= i < s.len() ==> parser::is_white(#[trigger] s[i])
}

/// A text consists of characters of names.
pub open spec fn is_name(s: Seq<char>) -> bool {
    s.len() > 0 && forall|i: int| 0 <= i < s.len() ==> parser::is_word(#[trigger] s[i])
}

/// Spaces and tabs are white space; letters, digits, underscores and the marks of the statements
/// are not. Names are made of letters, digits and underscores.
pub proof fn characters_have_their_kinds(c: char)
    ensures
        parser::is_white(' '),
        parser::is_white('\t'),
        parser::is_white('\r'),
        parser::is_white('\n'),
        0x21 <= c as u32 <= 0x7E ==> !parser::is_white(c),
        parser::is_word(c) <==> (48 <= c as u32 <= 57) || (65 <= c as u32 <= 90) || (97 <= c as u32
            <= 122) || c as u32 == 95,
{
}

proof fn leading_white_goes(white: Seq<char>, s: Seq<char>)
    requires
        is_blank(white),
        s.len() == 0 || !parser::is_white(s[0]),
    ensures
        parser::trim_start(white + s) == s,
    decreases white.len(),
{
    if white.len() == 0 {
        assert(white + s =~= s);
    } else {
        assert((white + s)[0] == white[0]);
        assert((white + s).drop_first() =~= white.drop_first() + s);
        assert forall|i: int| 0 <= i < white.drop_first().len() implies parser::is_white(
            #[trigger] white.drop_first()[i],
        ) by {
            assert(parser::is_white(white[i + 1]));
        }
        leading_white_goes(white.drop_first(), s);
    }
}

proof fn trailing_white_goes(s: Seq<char>, white: Seq<char>)
    requires
        is_blank(white),
        s.len() == 0 || !parser::is_white(s.last()),
    ensures
        parser::trim_end(s + white) == s,
    decreases white.len(),
{
    if white.len() == 0 {
        assert(s + white =~= s);
    } else {
        assert((s + white).last() == white.last());
        assert((s + white).drop_last() =~= s + white.drop_last());
        trailing_white_goes(s, white.drop_last());
    }
}

/// White space around a text is left out, and nothing else.
pub proof fn white_space_around_is_left_out(left: Seq<char>, s: Seq<char>, right: Seq<char>)
    requires
        is_blank(left),
        is_blank(right),
        is_bare(s),
    ensures
        parser::trimmed(left + s + right) == s,
        parser::trimmed(left) == Seq::<char>::empty(),
{
    assert(left + s + right =~= left + (s + right));
    assert((s + right)[0] == s[0]);
    leading_white_goes(left, s + right);
    trailing_white_goes(s, right);
    leading_white_goes(left, Seq::empty());
    assert(left + Seq::<char>::empty() =~= left);
}

proof fn bare_stays(s: Seq<char>)
    requires
        is_bare(s),
    ensures
        parser::trimmed(s) == s,
{
    white_space_around_is_left_out(Seq::empty(), s, Seq::empty());
    assert(Seq::<char>::empty() + s + Seq::<char>::empty() =~= s);
}

proof fn found(a: Seq<char>, c: char, b: Seq<char>)
    requires
        forall|i: int| 0 <= i < a.len() ==> #[trigger] a[i] != c,
    ensures
        parser::position(a + seq![c] + b, c) == a.len(),
        parser::position(a, c) == a.len(),
    decreases a.len(),
{
    let s = a + seq![c] + b;
    if a.len() > 0 {
        assert(s[0] == a[0]);
        assert(s.drop_first() =~= a.drop_first() + seq![c] + b);
        assert forall|i: int| 0 <= i < a.drop_first().len() implies #[trigger] a.drop_first()[i]
            != c by {
            assert(a[i + 1] != c);
        }
        found(a.drop_first(), c, b);
    } else {
        assert(s[0] == c);
    }
}

/// A comment runs from the first `#` to the end of its line and says nothing.
pub proof fn comments_say_nothing(s: Seq<char>, comment: Seq<char>)
    requires
        forall|i: int| 0 <= i < s.len() ==> #[trigger] s[i] != '#',
    ensures
        parser::uncommented(s + seq!['#'] + comment) == s,
        parser::uncommented(s) == s,
{
    found(s, '#', comment);
    assert((s + seq!['#'] + comment).take(s.len() as int) =~= s);
    assert(s.take(s.len() as int) =~= s);
}

/// A text is cut into lines at its line feeds, and nowhere else.
pub proof fn lines_end_at_line_feeds(line: Seq<char>, rest: Seq<char>)
    requires
        forall|i: int| 0 <= i < line.len() ==> #[trigger] line[i] != '\n',
    ensures
        parser::lines(line) == seq![line],
        parser::lines(line + seq!['\n'] + rest) == seq![line] + parser::lines(rest),
{
    found(line, '\n', rest);
    let s = line + seq!['\n'] + rest;
    assert(s.take(line.len() as int) =~= line);
    assert(s.skip((line.len() + 1) as int) =~= rest);
}

/// Every line with a statement gives it with its number, counted from one; a line with nothing
/// but white space or a comment gives none; the first line that is no statement ends it all.
pub proof fn lines_are_numbered_from_one(all: Seq<Seq<char>>, k: nat)
    requires
        k < all.len(),
    ensures
        ({
            let line = parser::trimmed(parser::uncommented(all[k as int]));
            let before = parser::script(all, k);
            let now = parser::script(all, k + 1);
            &&& parser::script(all, 0) matches Ok(list) && list.len() == 0
            &&& before is Err ==> now == before
            &&& before matches Ok(list) ==> ({
                &&& line.len() == 0 ==> now == before
                &&& line.len() > 0 ==> (parser::statement(line) matches Ok(st) ==> (now matches Ok(
                    more,
                ) && more == list + seq![(k + 1, st)]))
                &&& line.len() > 0 ==> (parser::statement(line) matches Err(m) ==> (now matches Err(
                    e,
                ) && e.0 == k + 1 && e.1 == m))
            })
        }),
{
    if let Ok(list) = parser::script(all, k) {
        if let Ok(st) = parser::statement(parser::trimmed(parser::uncommented(all[k as int]))) {
            assert(list.push((k + 1, st)) =~= list + seq![(k + 1, st)]);
        }
    }
}

proof fn name_ends(name: Seq<char>, rest: Seq<char>)
    requires
        forall|i: int| 0 <= i < name.len() ==> parser::is_word(#[trigger] name[i]),
        rest.len() == 0 || !parser::is_word(rest[0]),
    ensures
        parser::word_length(name + rest) == name.len(),
    decreases name.len(),
{
    let s = name + rest;
    if name.len() > 0 {
        assert(s[0] == name[0]);
        assert(s.drop_first() =~= name.drop_first() + rest);
        assert forall|i: int| 0 <= i < name.drop_first().len() implies parser::is_word(
            #[trigger] name.drop_first()[i],
        ) by {
            assert(parser::is_word(name[i + 1]));
        }
        name_ends(name.drop_first(), rest);
    } else {
        assert(s =~= rest);
    }
}

/// A component's id can be written in brackets.
pub open spec fn is_id(id: Seq<char>) -> bool {
    is_bare(id) && forall|i: int| 0 <= i < id.len() ==> #[trigger] id[i] != ']'
}

/// `component[<id>] -> <name>`
pub open spec fn reference(id: Seq<char>, name: Seq<char>) -> Seq<char> {
    "component["@ + id + "] -> "@ + name
}

proof fn references_are_read(id: Seq<char>, name: Seq<char>, rest: Seq<char>)
    requires
        is_id(id),
        is_name(name),
        rest.len() == 0 || (!parser::is_word(rest[0]) && !parser::is_white(rest.last())),
    ensures
        parser::arrow(reference(id, name) + rest) == Ok::<Arrow, Seq<char>>(
            (Arrow { component: id, name, rest }),
        ),
        is_bare(reference(id, name) + rest),
{
    reveal_strlit("component[");
    reveal_strlit("component");
    reveal_strlit("] -> ");
    reveal_strlit("->");
    let s = reference(id, name) + rest;
    assert(s[0] == "component["@[0]);
    assert(parser::is_word(name.last()));
    assert(s.last() == (if rest.len() == 0 {
        name.last()
    } else {
        rest.last()
    }));
    bare_stays(s);
    assert(s.take(9) =~= "component"@);
    assert("component"@.is_prefix_of(s));
    let a = s.skip(9);
    let tail = " -> "@ + name + rest;
    reveal_strlit(" -> ");
    assert(a =~= seq!['['] + (id + seq![']'] + tail));
    leading_white_goes(Seq::empty(), a);
    assert(Seq::<char>::empty() + a =~= a);
    let b = a.drop_first();
    assert(b =~= id + seq![']'] + tail);
    found(id, ']', tail);
    assert(b.take(id.len() as int) =~= id);
    bare_stays(id);
    let c = b.skip((id.len() + 1) as int);
    let d = "->"@ + (seq![' '] + (name + rest));
    assert(c =~= seq![' '] + d);
    leading_white_goes(seq![' '], d);
    assert(d.take(2) =~= "->"@);
    assert("->"@.is_prefix_of(d));
    assert(d.skip(2) =~= seq![' '] + (name + rest));
    assert(parser::is_word(name[0]));
    assert((name + rest)[0] == name[0]);
    leading_white_goes(seq![' '], name + rest);
    name_ends(name, rest);
    assert((name + rest).take(name.len() as int) =~= name);
    assert((name + rest).skip(name.len() as int) =~= rest);
}

/// A line `component[<id>] -> <action>` is that action on that component without an argument, and
/// one with `(<value>)` behind it the action with that value.
pub proof fn actions_are_read(id: Seq<char>, action: Seq<char>, value: Seq<char>, l: Literal)
    requires
        is_id(id),
        is_name(action),
        is_bare(value),
        parser::literal(value) == Some(l),
    ensures
        parser::statement(reference(id, action)) == Ok::<StatementView, Seq<char>>(
            (StatementView::Action { component: id, action, arg: None }),
        ),
        parser::statement(reference(id, action) + "("@ + value + ")"@) == Ok::<
            StatementView,
            Seq<char>,
        >((StatementView::Action { component: id, action, arg: Some(l) })),
{
    reveal_strlit("(");
    reveal_strlit(")");
    let arg = "("@ + value + ")"@;
    references_are_read(id, action, Seq::empty());
    references_are_read(id, action, arg);
    assert(reference(id, action) + Seq::<char>::empty() =~= reference(id, action));
    assert(reference(id, action) + "("@ + value + ")"@ =~= reference(id, action) + arg);
    no_keyword(reference(id, action));
    no_keyword(reference(id, action) + arg);
    white_space_around_is_left_out(Seq::empty(), arg, Seq::empty());
    bare_stays(arg);
    assert(arg.subrange(1, arg.len() - 1) =~= value);
    bare_stays(value);
}

proof fn no_keyword(s: Seq<char>)
    requires
        "component["@.is_prefix_of(s) || (s.len() > 0 && s[0] == 'c'),
    ensures
        parser::stripped(s, "simulate"@) is None,
        parser::stripped(s, "assert"@) is None,
{
    reveal_strlit("component[");
    reveal_strlit("simulate");
    reveal_strlit("assert");
    if "component["@.is_prefix_of(s) {
        assert(s.subrange(0, 10)[0] == s[0]);
    }
    if "simulate"@.is_prefix_of(s) {
        assert(s.subrange(0, 8)[0] == s[0]);
    }
    if "assert"@.is_prefix_of(s) {
        assert(s.subrange(0, 6)[0] == s[0]);
    }
}

/// A line `assert component[<id>] -> <readout> == <value>` is the assertion that the readout of
/// that component equals that value, and with `!=` that it does not.
pub proof fn assertions_are_read(id: Seq<char>, readout: Seq<char>, value: Seq<char>, l: Literal)
    requires
        is_id(id),
        is_name(readout),
        is_bare(value),
        parser::literal(value) == Some(l),
    ensures
        parser::statement("assert "@ + reference(id, readout) + " == "@ + value) == Ok::<
            StatementView,
            Seq<char>,
        >((StatementView::Assert { component: id, readout, op: Cmp::Eq, expected: l })),
        parser::statement("assert "@ + reference(id, readout) + " != "@ + value) == Ok::<
            StatementView,
            Seq<char>,
        >((StatementView::Assert { component: id, readout, op: Cmp::Ne, expected: l })),
{
    reveal_strlit(" == ");
    reveal_strlit(" != ");
    reveal_strlit("==");
    reveal_strlit("!=");
    assert(" == "@ =~= seq![' '] + "=="@ + seq![' ']);
    assert(" != "@ =~= seq![' '] + "!="@ + seq![' ']);
    asserted(id, readout, " == "@, "=="@, value);
    asserted(id, readout, " != "@, "!="@, value);
    bare_stays(value);
    let e = "=="@ + seq![' '] + value;
    let n = "!="@ + seq![' '] + value;
    assert(e.take(2) =~= "=="@);
    assert(n.take(2) =~= "!="@);
    assert("=="@.is_prefix_of(e));
    assert("!="@.is_prefix_of(n));
    assert(e.skip(2) =~= seq![' '] + value + Seq::<char>::empty());
    assert(n.skip(2) =~= seq![' '] + value + Seq::<char>::empty());
    white_space_around_is_left_out(seq![' '], value, Seq::empty());
    assert(!"=="@.is_prefix_of(n)) by {
        if "=="@.is_prefix_of(n) {
            assert(n.subrange(0, 2)[0] == n[0]);
        }
    }
}

/// What is left to read of an assertion after its readout.
proof fn asserted(
    id: Seq<char>,
    readout: Seq<char>,
    spaced: Seq<char>,
    mark: Seq<char>,
    value: Seq<char>,
)
    requires
        is_id(id),
        is_name(readout),
        is_bare(value),
        mark.len() == 2,
        mark == "=="@ || mark == "!="@,
        spaced == seq![' '] + mark + seq![' '],
    ensures
        ({
            let s = "assert "@ + reference(id, readout) + spaced + value;
            &&& parser::stripped(s, "simulate"@) is None
            &&& parser::stripped(s, "assert"@) is Some
            &&& parser::arrow(parser::trimmed(parser::stripped(s, "assert"@)->0)) == Ok::<
                Arrow,
                Seq<char>,
            >((Arrow { component: id, name: readout, rest: spaced + value }))
            &&& parser::trimmed(spaced + value) == mark + seq![' '] + value
        }),
{
    reveal_strlit("assert ");
    reveal_strlit("assert");
    reveal_strlit("simulate");
    reveal_strlit("==");
    reveal_strlit("!=");
    let s = "assert "@ + reference(id, readout) + spaced + value;
    let rest = spaced + value;
    let core = reference(id, readout) + rest;
    assert(rest[0] == ' ');
    assert(rest.last() == value.last());
    references_are_read(id, readout, rest);
    assert(s[0] == 'a');
    if "simulate"@.is_prefix_of(s) {
        assert(s.subrange(0, 8)[0] == s[0]);
    }
    assert(s.take(6) =~= "assert"@);
    assert("assert"@.is_prefix_of(s));
    assert(s.skip(6) =~= seq![' '] + core + Seq::<char>::empty());
    white_space_around_is_left_out(seq![' '], core, Seq::empty());
    let inner = mark + seq![' '] + value;
    assert(inner[0] == mark[0]);
    assert(inner.last() == value.last());
    white_space_around_is_left_out(seq![' '], inner, Seq::empty());
    assert(rest =~= seq![' '] + inner + Seq::<char>::empty());
}

/// `simulate` stands alone or with a number of rounds in decimal.
pub proof fn simulate_is_read(number: Seq<char>, n: u32)
    requires
        is_bare(number),
        text::parsed(number, 10, u32::MAX as nat) == Some(n as nat),
    ensures
        parser::statement("simulate"@) == Ok::<StatementView, Seq<char>>(
            (StatementView::Simulate { ticks: None }),
        ),
        parser::statement("simulate "@ + number) == Ok::<StatementView, Seq<char>>(
            (StatementView::Simulate { ticks: Some(n) }),
        ),
{
    reveal_strlit("simulate");
    reveal_strlit("simulate ");
    let a = "simulate"@;
    let s = "simulate "@ + number;
    assert(a.is_prefix_of(a));
    assert(a.skip(8) =~= Seq::<char>::empty());
    assert(s.take(8) =~= a);
    assert(a.is_prefix_of(s));
    assert(s.skip(8) =~= seq![' '] + number + Seq::<char>::empty());
    white_space_around_is_left_out(seq![' '], number, Seq::empty());
}

/// The words for truth, and the prefixes of the bases.
pub proof fn literals_are_read(digits: Seq<char>)
    requires
        digits.len() > 0,
        digits[0] != '+',
    ensures
        parser::literal("on"@) == Some(Literal::Bool(true)),
        parser::literal("true"@) == Some(Literal::Bool(true)),
        parser::literal("off"@) == Some(Literal::Bool(false)),
        parser::literal("false"@) == Some(Literal::Bool(false)),
        text::digits_value(digits, 16, digits.len()) matches Some(n) ==> (n <= u64::MAX
            ==> parser::literal("0x"@ + digits) == Some(Literal::Hex(n as u64))
            && parser::literal("0X"@ + digits) == Some(Literal::Hex(n as u64))),
        text::digits_value(digits, 2, digits.len()) matches Some(n) ==> (n <= u64::MAX
            ==> parser::literal("0b"@ + digits) == Some(Literal::Bin(n as u64))
            && parser::literal("0B"@ + digits) == Some(Literal::Bin(n as u64))),
        text::digits_value(digits, 16, digits.len()) is None ==> parser::literal("0x"@ + digits) is None,
        text::digits_value(digits, 2, digits.len()) is None ==> parser::literal("0b"@ + digits) is None,
{
    reveal_strlit("on");
    reveal_strlit("true");
    reveal_strlit("off");
    reveal_strlit("false");
    reveal_strlit("0x");
    reveal_strlit("0X");
    reveal_strlit("0b");
    reveal_strlit("0B");
    not_based("on"@);
    not_based("true"@);
    not_based("off"@);
    not_based("false"@);
    assert("on"@.len() == 2 && "off"@.len() == 3 && "true"@.len() == 4 && "false"@.len() == 5);
    assert("0x"@[1] == 'x' && "0X"@[1] == 'X' && "0b"@[1] == 'b' && "0B"@[1] == 'B');
    prefixed("0x"@, digits);
    prefixed("0X"@, digits);
    prefixed("0b"@, digits);
    prefixed("0B"@, digits);
}

proof fn not_based(s: Seq<char>)
    requires
        s.len() >= 2,
        s[0] != '0',
    ensures
        parser::stripped(s, "0x"@) is None,
        parser::stripped(s, "0X"@) is None,
        parser::stripped(s, "0b"@) is None,
        parser::stripped(s, "0B"@) is None,
{
    reveal_strlit("0x");
    reveal_strlit("0X");
    reveal_strlit("0b");
    reveal_strlit("0B");
    assert(s.subrange(0, 2)[0] == s[0]);
}

proof fn prefixed(p: Seq<char>, digits: Seq<char>)
    requires
        p == "0x"@ || p == "0X"@ || p == "0b"@ || p == "0B"@,
    ensures
        parser::stripped(p + digits, "0x"@) is Some <==> p == "0x"@,
        parser::stripped(p + digits, "0X"@) is Some <==> p == "0X"@,
        parser::stripped(p + digits, "0b"@) is Some <==> p == "0b"@,
        parser::stripped(p + digits, "0B"@) is Some <==> p == "0B"@,
        (p + digits).skip(2) == digits,
{
    reveal_strlit("0x");
    reveal_strlit("0X");
    reveal_strlit("0b");
    reveal_strlit("0B");
    assert("0x"@.len() == 2 && "0X"@.len() == 2 && "0b"@.len() == 2 && "0B"@.len() == 2);
    let s = p + digits;
    assert(s.subrange(0, 2) =~= p);
    assert(s.skip(2) =~= digits);
}

} // verus!
