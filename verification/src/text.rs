//! Text as sequences of characters: taking strings apart, and building them.
use vstd::prelude::*;
use vstd::string::StringExecFns;

verus! {

/// `String::push` appends one character.
pub assume_specification[ String::push ](s: &mut String, c: char)
    ensures
        final(s)@ == old(s)@.push(c),
;

/// A number is the code of a character: a Unicode scalar value.
pub open spec fn is_char_code(v: u32) -> bool {
    v <= 0xD7FF || 0xE000 <= v <= 0x10FFFF
}

/// `char::from_u32` gives the character with a code, and `None` for a surrogate or a number
/// that is too large.
pub assume_specification[ char::from_u32 ](i: u32) -> (r: Option<char>)
    ensures
        match r {
            Some(c) => is_char_code(i) && c == i as char,
            None => !is_char_code(i),
        },
;

/// A string in double quotes with the escapes of Rust's `Debug` format for `str`.
pub uninterp spec fn quoted(s: Seq<char>) -> Seq<char>;

/// Calls the `Debug` formatting of `str`; [`quoted`] names its result, which depends on the
/// string alone.
#[verifier::external_body]
pub(crate) fn quote(s: &str) -> (r: String)
    ensures
        r@ == quoted(s@),
{
    format!("{:?}", s)
}

/// The characters of a string.
pub fn chars_of(s: &str) -> (r: Vec<char>)
    ensures
        r@ == s@,
{
    let mut v: Vec<char> = Vec::new();
    for c in it: s.chars()
        invariant
            v@ == it.seq().take(it.index()),
    {
        v.push(c);
    }
    v
}

/// The characters from `from` up to `to` as a string.
pub fn string_of(chars: &Vec<char>, from: usize, to: usize) -> (r: String)
    requires
        from <= to <= chars@.len(),
    ensures
        r@ == chars@.subrange(from as int, to as int),
{
    let mut s: String = String::new();
    for i in from..to
        invariant
            from <= to <= chars@.len(),
            s@ == chars@.subrange(from as int, i as int),
    {
        s.push(chars[i]);
        assert(s@ =~= chars@.subrange(from as int, i + 1));
    }
    s
}

/// Two strings are the same.
pub fn same(a: &str, b: &str) -> (r: bool)
    ensures
        r == (a@ == b@),
{
    a.to_owned() == b.to_owned()
}

/// The decimal digit for a number below ten.
pub open spec fn decimal_digit(d: nat) -> char {
    (48 + d) as char
}

/// A number in decimal, without leading zeros.
pub open spec fn decimal(n: nat) -> Seq<char>
    decreases n,
{
    if n < 10 {
        seq![decimal_digit(n)]
    } else {
        decimal(n / 10).push(decimal_digit(n % 10))
    }
}

/// An integer in decimal, with a minus sign where it is negative.
pub open spec fn decimal_int(i: int) -> Seq<char> {
    if i < 0 {
        "-"@ + decimal((-i) as nat)
    } else {
        decimal(i as nat)
    }
}

/// Appends a number in decimal.
pub fn push_decimal(out: &mut String, n: u64)
    ensures
        final(out)@ == old(out)@ + decimal(n as nat),
    decreases n,
{
    if n >= 10 {
        push_decimal(out, n / 10);
    }
    let d: u8 = (n % 10) as u8;
    out.push((48u8 + d) as char);
    assert(out@ =~= old(out)@ + decimal(n as nat));
}

/// Appends an integer in decimal.
pub fn push_int(out: &mut String, i: i64)
    ensures
        final(out)@ == old(out)@ + decimal_int(i as int),
{
    if i < 0 {
        out.append("-");
        let n: u64 = (-(i as i128)) as u64;
        push_decimal(out, n);
        assert(out@ =~= old(out)@ + decimal_int(i as int));
    } else {
        push_decimal(out, i as u64);
    }
}

/// The digit for a number below sixteen.
pub open spec fn numeral_digit(d: nat) -> char {
    if d < 10 {
        (48 + d) as char
    } else {
        (87 + d) as char
    }
}

/// A number in a radix of up to sixteen, without leading zeros.
pub open spec fn numeral(n: nat, radix: nat) -> Seq<char>
    decreases n,
    when radix >= 2
{
    if n < radix {
        seq![numeral_digit(n)]
    } else {
        proof {
            assert(n / radix < n) by (nonlinear_arith)
                requires
                    radix >= 2,
                    n >= radix,
            ;
        }
        numeral(n / radix, radix).push(numeral_digit(n % radix))
    }
}

/// Appends a number in a radix of up to sixteen.
pub fn push_numeral(out: &mut String, n: u64, radix: u64)
    requires
        2 <= radix <= 16,
    ensures
        final(out)@ == old(out)@ + numeral(n as nat, radix as nat),
    decreases n,
{
    if n >= radix {
        proof {
            assert(n / radix < n) by (nonlinear_arith)
                requires
                    radix >= 2,
                    n >= radix,
            ;
        }
        push_numeral(out, n / radix, radix);
    }
    proof {
        if n < radix {
            vstd::arithmetic::div_mod::lemma_small_mod(n as nat, radix as nat);
        }
        vstd::arithmetic::div_mod::lemma_mod_bound(n as int, radix as int);
    }
    let d: u8 = (n % radix) as u8;
    if d < 10 {
        out.push((48u8 + d) as char);
    } else {
        out.push((87u8 + d) as char);
    }
    assert(out@ =~= old(out)@ + numeral(n as nat, radix as nat));
}

/// The value of a digit in a radix of up to sixteen, `None` for any other character.
pub open spec fn digit_value(c: char, radix: nat) -> Option<nat> {
    let v: int = if '0' <= c <= '9' {
        c as int - '0' as int
    } else if 'a' <= c <= 'f' {
        c as int - 'a' as int + 10
    } else if 'A' <= c <= 'F' {
        c as int - 'A' as int + 10
    } else {
        99
    };
    if v < radix {
        Some(v as nat)
    } else {
        None
    }
}

/// The number that the first `k` characters spell, where all of them are digits.
pub open spec fn digits_value(s: Seq<char>, radix: nat, k: nat) -> Option<nat>
    decreases k,
{
    if k == 0 {
        Some(0)
    } else {
        match (digits_value(s, radix, (k - 1) as nat), digit_value(s[k - 1], radix)) {
            (Some(v), Some(d)) => Some(v * radix + d),
            _ => None,
        }
    }
}

/// The number that a text spells: an optional plus sign and at least one digit, at most `max`.
pub open spec fn parsed(s: Seq<char>, radix: nat, max: nat) -> Option<nat> {
    let digits = if s.len() > 0 && s[0] == '+' {
        s.drop_first()
    } else {
        s
    };
    if digits.len() == 0 {
        None
    } else {
        match digits_value(digits, radix, digits.len()) {
            Some(v) => if v <= max {
                Some(v)
            } else {
                None
            },
            None => None,
        }
    }
}

fn digit_of(c: char, radix: u64) -> (r: Option<u64>)
    requires
        radix <= 16,
    ensures
        match r {
            Some(d) => digit_value(c, radix as nat) == Some(d as nat) && d < radix,
            None => digit_value(c, radix as nat) is None,
        },
{
    let v: u64 = if '0' <= c && c <= '9' {
        c as u64 - '0' as u64
    } else if 'a' <= c && c <= 'f' {
        c as u64 - 'a' as u64 + 10
    } else if 'A' <= c && c <= 'F' {
        c as u64 - 'A' as u64 + 10
    } else {
        99
    };
    if v < radix {
        Some(v)
    } else {
        None
    }
}

proof fn digits_grow(s: Seq<char>, radix: nat, k: nat, n: nat)
    requires
        k <= n,
        1 <= radix,
    ensures
        digits_value(s, radix, k) is None ==> digits_value(s, radix, n) is None,
        digits_value(s, radix, k) is Some && digits_value(s, radix, n) is Some ==> digits_value(
            s,
            radix,
            k,
        )->0 <= digits_value(s, radix, n)->0,
    decreases n - k,
{
    if k < n {
        digits_grow(s, radix, k + 1, n);
        if digits_value(s, radix, k) is Some && digits_value(s, radix, k + 1) is Some {
            let v = digits_value(s, radix, k)->0;
            assert(v * radix >= v) by (nonlinear_arith)
                requires
                    radix >= 1,
            ;
        }
    }
}

/// Reads the number that the characters from `from` up to `to` spell.
pub fn parse_number(chars: &Vec<char>, from: usize, to: usize, radix: u64, max: u64) -> (r: Option<
    u64,
>)
    requires
        from <= to <= chars@.len(),
        2 <= radix <= 16,
    ensures
        match r {
            Some(v) => parsed(
                chars@.subrange(from as int, to as int),
                radix as nat,
                max as nat,
            ) == Some(v as nat),
            None => parsed(
                chars@.subrange(from as int, to as int),
                radix as nat,
                max as nat,
            ) is None,
        },
{
    let ghost whole = chars@.subrange(from as int, to as int);
    let start: usize = if from < to && chars[from] == '+' {
        from + 1
    } else {
        from
    };
    let ghost digits = chars@.subrange(start as int, to as int);
    proof {
        assert(digits =~= (if whole.len() > 0 && whole[0] == '+' {
            whole.drop_first()
        } else {
            whole
        }));
    }
    if start == to {
        return None;
    }
    let mut value: u64 = 0;
    for i in start..to
        invariant
            from <= start <= to <= chars@.len(),
            2 <= radix <= 16,
            digits == chars@.subrange(start as int, to as int),
            whole == chars@.subrange(from as int, to as int),
            digits.len() > 0,
            digits == (if whole.len() > 0 && whole[0] == '+' {
                whole.drop_first()
            } else {
                whole
            }),
            digits_value(digits, radix as nat, (i - start) as nat) == Some(value as nat),
            value <= max,
    {
        let ghost k = (i - start) as nat;
        proof {
            assert(digits[k as int] == chars@[i as int]);
            digits_grow(digits, radix as nat, k + 1, digits.len());
        }
        match digit_of(chars[i], radix) {
            None => {
                return None;
            },
            Some(d) => {
                proof {
                    assert(0 <= value * radix <= u64::MAX * 16) by (nonlinear_arith)
                        requires
                            value <= u64::MAX,
                            radix <= 16,
                    ;
                }
                let next: u128 = value as u128 * radix as u128 + d as u128;
                if next > max as u128 {
                    return None;
                }
                value = next as u64;
            },
        }
    }
    Some(value)
}

proof fn digits_of_prefix(s: Seq<char>, t: Seq<char>, radix: nat, k: nat)
    requires
        k <= s.len(),
        s.is_prefix_of(t),
    ensures
        digits_value(t, radix, k) == digits_value(s, radix, k),
    decreases k,
{
    if k > 0 {
        digits_of_prefix(s, t, radix, (k - 1) as nat);
        assert(s[k - 1] == t[k - 1]);
    }
}

proof fn numeral_spells(n: nat, radix: nat)
    requires
        2 <= radix <= 16,
    ensures
        numeral(n, radix).len() > 0,
        forall|i: int|
            0 <= i < numeral(n, radix).len() ==> digit_value(
                #[trigger] numeral(n, radix)[i],
                radix,
            ) is Some,
        digits_value(numeral(n, radix), radix, numeral(n, radix).len()) == Some(n),
    decreases n,
{
    let s = numeral(n, radix);
    if n < radix {
        assert(digits_value(s, radix, 0) == Some(0nat));
        assert(digit_value(s[0], radix) == Some(n));
        assert(0 * radix + n == n) by (nonlinear_arith);
    } else {
        assert(n / radix < n) by (nonlinear_arith)
            requires
                radix >= 2,
                n >= radix,
        ;
        let before = numeral(n / radix, radix);
        numeral_spells(n / radix, radix);
        digits_of_prefix(before, s, radix, before.len());
        vstd::arithmetic::div_mod::lemma_mod_bound(n as int, radix as int);
        vstd::arithmetic::div_mod::lemma_fundamental_div_mod(n as int, radix as int);
        assert(digit_value(s[s.len() - 1], radix) == Some(n % radix));
        assert((n / radix) * radix + n % radix == n) by (nonlinear_arith)
            requires
                n == radix * (n / radix) + n % radix,
        ;
        assert forall|i: int| 0 <= i < s.len() implies digit_value(
            #[trigger] s[i],
            radix,
        ) is Some by {
            if i < before.len() {
                assert(s[i] == before[i]);
            }
        }
    }
}

/// What is written in a radix is read back in that radix.
pub proof fn numerals_are_read_back(n: nat, radix: nat, max: nat)
    requires
        2 <= radix <= 16,
        n <= max,
    ensures
        parsed(numeral(n, radix), radix, max) == Some(n),
        forall|i: int|
            0 <= i < numeral(n, radix).len() ==> digit_value(
                #[trigger] numeral(n, radix)[i],
                radix,
            ) is Some,
{
    numeral_spells(n, radix);
    assert(digit_value(numeral(n, radix)[0], radix) is Some);
}

/// Decimal numbers are numerals in radix ten.
pub proof fn decimal_is_numeral(n: nat)
    ensures
        decimal(n) == numeral(n, 10),
    decreases n,
{
    if n >= 10 {
        decimal_is_numeral(n / 10);
    }
}

/// Digits are written with the characters of their value, `a` to `f` above nine, the highest
/// first, and a number below zero with a minus sign in front.
pub proof fn digits_are_written_in_order(n: nat, radix: nat, i: int)
    requires
        2 <= radix <= 16,
    ensures
        numeral(n, radix).len() > 0,
        numeral(n, radix).last() == "0123456789abcdef"@[(n % radix) as int],
        n >= radix ==> numeral(n, radix).drop_last() == numeral(n / radix, radix),
        n < radix ==> numeral(n, radix).len() == 1,
        decimal(n).len() > 0,
        decimal(n).last() == "0123456789"@[(n % 10) as int],
        n >= 10 ==> decimal(n).drop_last() == decimal(n / 10),
        n < 10 ==> decimal(n).len() == 1,
        i >= 0 ==> decimal_int(i) == decimal(i as nat),
        i < 0 ==> decimal_int(i) == "-"@ + decimal((-i) as nat),
{
    reveal_strlit("0123456789abcdef");
    reveal_strlit("0123456789");
    vstd::arithmetic::div_mod::lemma_mod_bound(n as int, radix as int);
    if n < radix {
        vstd::arithmetic::div_mod::lemma_small_mod(n, radix);
    } else {
        assert(numeral(n, radix).drop_last() =~= numeral(n / radix, radix));
    }
    let d = n % radix;
    assert(numeral_digit(d) == "0123456789abcdef"@[d as int]) by {
        if d == 0 || d == 1 || d == 2 || d == 3 || d == 4 || d == 5 || d == 6 || d == 7 || d == 8
            || d == 9 || d == 10 || d == 11 || d == 12 || d == 13 || d == 14 || d == 15 {
        }
    }
    let e = n % 10;
    assert(decimal_digit(e) == "0123456789"@[e as int]) by {
        if e == 0 || e == 1 || e == 2 || e == 3 || e == 4 || e == 5 || e == 6 || e == 7 || e == 8
            || e == 9 {
        }
    }
    if n >= 10 {
        assert(decimal(n).drop_last() =~= decimal(n / 10));
    }
}

/// A text is read as a number digit by digit, the highest first, upper and lower case alike: a
/// further digit multiplies by the radix and adds its value. A plus sign in front changes nothing,
/// and what is no digit, nothing at all, or too large a number is refused.
pub proof fn numbers_are_read_digit_by_digit(s: Seq<char>, c: char, radix: nat, max: nat)
    requires
        2 <= radix <= 16,
    ensures
        ({
            let v = if '0' <= c <= '9' {
                c as int - 48
            } else if 'a' <= c <= 'f' {
                c as int - 97 + 10
            } else if 'A' <= c <= 'F' {
                c as int - 65 + 10
            } else {
                16
            };
            &&& digits_value(seq![c], radix, 1) == (if v < radix {
                Some(v as nat)
            } else {
                None
            })
            &&& v < radix ==> (digits_value(s, radix, s.len()) matches Some(n) ==> digits_value(
                s.push(c),
                radix,
                s.len() + 1,
            ) == Some((n * radix + v) as nat))
            &&& v >= radix ==> digits_value(s.push(c), radix, s.len() + 1) is None
            &&& digits_value(s, radix, s.len()) is None ==> digits_value(
                s.push(c),
                radix,
                s.len() + 1,
            ) is None
        }),
        s.len() > 0 && s[0] != '+' ==> (parsed(s, radix, max) == (match digits_value(
            s,
            radix,
            s.len(),
        ) {
            Some(n) => if n <= max {
                Some(n)
            } else {
                None
            },
            None => None,
        })),
        s.len() > 0 && s[0] != '+' ==> parsed(seq!['+'] + s, radix, max) == parsed(s, radix, max),
        parsed(Seq::empty(), radix, max) is None,
        parsed(seq!['+'], radix, max) is None,
{
    reveal_with_fuel(digits_value, 2);
    assert(digits_value(seq![c], radix, 0) == Some(0nat));
    assert(0 * radix == 0) by (nonlinear_arith);
    same_digits(s, s.push(c), radix, s.len());
    assert((seq!['+'] + s).drop_first() =~= s);
    assert(seq!['+'].drop_first() =~= Seq::<char>::empty());
}

proof fn same_digits(a: Seq<char>, b: Seq<char>, radix: nat, k: nat)
    requires
        k <= a.len() <= b.len(),
        forall|i: int| 0 <= i < a.len() ==> a[i] == #[trigger] b[i],
    ensures
        digits_value(a, radix, k) == digits_value(b, radix, k),
    decreases k,
{
    if k > 0 {
        same_digits(a, b, radix, (k - 1) as nat);
        assert(a[k - 1] == b[k - 1]);
    }
}

} // verus!
