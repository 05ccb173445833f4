//! Decimal numbers and JSON string escapes.

use vstd::prelude::*;

verus! {

/// `String::push` appends one character to the end of a string.
pub assume_specification[ String::push ](string: &mut String, ch: char)
    ensures
        final(string)@ == old(string)@.push(ch),
;

/// The character that writes the digit `d`.
pub open spec fn digit(d: nat) -> char {
    ('0' as int + d) as char
}

/// Whether a character is a decimal digit.
pub open spec fn is_digit(c: char) -> bool {
    '0' <= c <= '9'
}

/// A number in decimal notation.
pub open spec fn decimal(n: nat) -> Seq<char>
    decreases n,
{
    if n < 10 {
        seq![digit(n)]
    } else {
        decimal(n / 10).push(digit(n % 10))
    }
}

/// A number in decimal notation, with zeros in front of it up to four digits.
pub open spec fn decimal4(n: nat) -> Seq<char> {
    let d = decimal(n);
    if d.len() < 4 {
        Seq::new((4 - d.len()) as nat, |i: int| '0') + d
    } else {
        d
    }
}

/// The number that a string of decimal digits writes.
pub open spec fn digits_value(s: Seq<char>) -> nat
    decreases s.len(),
{
    if s.len() == 0 {
        0
    } else {
        (10 * digits_value(s.drop_last()) + (s.last() as int - '0' as int)) as nat
    }
}

/// Whether every character is a decimal digit.
pub open spec fn all_digits(s: Seq<char>) -> bool {
    forall|i: int| 0 <= i < s.len() ==> is_digit(#[trigger] s[i])
}

/// What a text is without the plus sign that it may start with.
pub open spec fn unsigned_part(s: Seq<char>) -> Seq<char> {
    if s.len() > 0 && s[0] == '+' {
        s.skip(1)
    } else {
        s
    }
}

/// The number that a text writes: an optional plus sign and at least one digit, nothing else, and
/// a value that fits in 64 bits.
pub open spec fn parsed(s: Seq<char>) -> Option<u64> {
    let body = unsigned_part(s);
    if body.len() > 0 && all_digits(body) && digits_value(body) <= u64::MAX {
        Some(digits_value(body) as u64)
    } else {
        None
    }
}

/// The characters of a text.
pub fn chars_of(s: &str) -> (chars: Vec<char>)
    ensures
        chars@ == s@,
{
    let mut chars: Vec<char> = Vec::new();
    for c in it: s.chars()
        invariant
            it.seq() == s@,
            chars@ == s@.take(it.index() as int),
    {
        chars.push(c);
    }
    assert(s@.take(s@.len() as int) =~= s@);
    chars
}

/// Appends a number in decimal notation.
pub fn push_decimal(out: &mut String, n: u64)
    ensures
        final(out)@ == old(out)@ + decimal(n as nat),
    decreases n,
{
    if n >= 10 {
        push_decimal(out, n / 10);
    }
    let d: u8 = (n % 10) as u8;
    out.push((48u8 + d) as char);
    assert(out@ =~= old(out)@ + decimal(n as nat));
}

/// The number of digits of small numbers.
proof fn lemma_decimal_len(n: nat)
    ensures
        n < 10 ==> decimal(n).len() == 1,
        10 <= n < 100 ==> decimal(n).len() == 2,
        100 <= n < 1000 ==> decimal(n).len() == 3,
        1000 <= n ==> decimal(n).len() >= 4,
{
    reveal_with_fuel(decimal, 5);
}

/// Appends a number in decimal notation, with zeros in front of it up to four digits.
pub fn push_decimal4(out: &mut String, n: u64)
    ensures
        final(out)@ == old(out)@ + decimal4(n as nat),
{
    proof {
        lemma_decimal_len(n as nat);
    }
    if n < 1000 {
        out.push('0');
    }
    if n < 100 {
        out.push('0');
    }
    if n < 10 {
        out.push('0');
    }
    push_decimal(out, n);
    assert(out@ =~= old(out)@ + decimal4(n as nat));
}

/// More digits never write a smaller number.
proof fn lemma_value_grows(s: Seq<char>, i: int)
    requires
        0 <= i <= s.len(),
        all_digits(s),
    ensures
        digits_value(s.take(i)) <= digits_value(s),
    decreases s.len() - i,
{
    if i == s.len() {
        assert(s.take(i) =~= s);
    } else {
        lemma_value_grows(s, i + 1);
        assert(s.take(i + 1).drop_last() =~= s.take(i));
        assert(is_digit(s[i]));
    }
}

/// Reads a number in decimal notation.
pub fn parse_u64(s: &str) -> (value: Option<u64>)
    ensures
        value == parsed(s@),
{
    let chars = chars_of(s);
    let start: usize = if chars.len() > 0 && chars[0] == '+' {
        1
    } else {
        0
    };
    let ghost body = unsigned_part(s@);
    assert(body =~= s@.skip(start as int));
    if chars.len() == start {
        return None;
    }
    let mut value: u64 = 0;
    let mut i: usize = start;
    assert(body.take(0) =~= Seq::empty());
    while i < chars.len()
        invariant
            chars@ == s@,
            body == unsigned_part(s@),
            body == s@.skip(start as int),
            start <= i <= chars@.len(),
            forall|j: int| 0 <= j < i - start ==> is_digit(#[trigger] body[j]),
            value == digits_value(body.take(i - start)),
        decreases chars@.len() - i,
    {
        let c: char = chars[i];
        assert(body[i - start] == c);
        if c < '0' || c > '9' {
            return None;
        }
        let d: u64 = c as u64 - '0' as u64;
        proof {
            assert(body.take(i - start + 1).drop_last() =~= body.take(i - start));
            if all_digits(body) {
                lemma_value_grows(body, i - start + 1);
            }
        }
        if value > (u64::MAX - d) / 10 {
            return None;
        }
        value = 10 * value + d;
        i = i + 1;
    }
    assert(body.take(body.len() as int) =~= body);
    Some(value)
}

/// The characters that stand for `c` inside a JSON string.
pub open spec fn escape(c: char) -> Seq<char> {
    if c == '"' {
        seq!['\\', '"']
    } else if c == '\\' {
        seq!['\\', '\\']
    } else if c == '\n' {
        seq!['\\', 'n']
    } else if c == '\r' {
        seq!['\\', 'r']
    } else if c == '\t' {
        seq!['\\', 't']
    } else {
        seq![c]
    }
}

/// A text with quotes, backslashes, line breaks and tabs escaped.
pub open spec fn json_escaped(s: Seq<char>) -> Seq<char>
    decreases s.len(),
{
    if s.len() == 0 {
        Seq::empty()
    } else {
        escape(s[0]) + json_escaped(s.skip(1))
    }
}

proof fn lemma_escaped_push(s: Seq<char>, c: char)
    ensures
        json_escaped(s.push(c)) == json_escaped(s) + escape(c),
    decreases s.len(),
{
    let t = s.push(c);
    if s.len() == 0 {
        assert(json_escaped(t.skip(1)) == Seq::<char>::empty());
        assert(json_escaped(t) =~= json_escaped(s) + escape(c));
    } else {
        lemma_escaped_push(s.skip(1), c);
        assert(t.skip(1) =~= s.skip(1).push(c));
        assert(json_escaped(t) =~= json_escaped(s) + escape(c));
    }
}

/// Escapes a text for use inside a JSON string.
pub fn json_escape(s: &str) -> (escaped: String)
    ensures
        escaped@ == json_escaped(s@),
{
    let mut out = String::new();
    for c in it: s.chars()
        invariant
            it.seq() == s@,
            out@ == json_escaped(s@.take(it.index() as int)),
    {
        proof {
            lemma_escaped_push(s@.take(it.index() as int), c);
            assert(s@.take(it.index() + 1) =~= s@.take(it.index() as int).push(c));
        }
        let ghost before = out@;
        if c == '"' {
            out.push('\\');
            out.push('"');
        } else if c == '\\' {
            out.push('\\');
            out.push('\\');
        } else if c == '\n' {
            out.push('\\');
            out.push('n');
        } else if c == '\r' {
            out.push('\\');
            out.push('r');
        } else if c == '\t' {
            out.push('\\');
            out.push('t');
        } else {
            out.push(c);
        }
        assert(out@ =~= before + escape(c));
    }
    assert(s@.take(s@.len() as int) =~= s@);
    out
}

/// The character that an escape letter stands for.
pub open spec fn escaped_letter(c: char) -> char {
    if c == 'n' {
        '\n'
    } else if c == 'r' {
        '\r'
    } else if c == 't' {
        '\t'
    } else {
        c
    }
}

/// Reads the inside of a JSON string up to its closing quote; gives the text and what follows the
/// quote.
pub open spec fn json_string(s: Seq<char>) -> Option<(Seq<char>, Seq<char>)>
    decreases s.len(),
{
    if s.len() == 0 {
        None
    } else if s[0] == '"' {
        Some((Seq::empty(), s.skip(1)))
    } else if s[0] == '\\' {
        if s.len() == 1 {
            None
        } else {
            match json_string(s.skip(2)) {
                Some((text, rest)) => Some((seq![escaped_letter(s[1])] + text, rest)),
                None => None,
            }
        }
    } else {
        match json_string(s.skip(1)) {
            Some((text, rest)) => Some((seq![s[0]] + text, rest)),
            None => None,
        }
    }
}

/// A reader of JSON strings gets an escaped text back, and stops at the quote that closes it.
pub proof fn law_escape_round_trip(s: Seq<char>, rest: Seq<char>)
    ensures
        json_string(json_escaped(s) + seq!['"'] + rest) == Some((s, rest)),
    decreases s.len(),
{
    let t = json_escaped(s) + seq!['"'] + rest;
    if s.len() == 0 {
        assert(t.skip(1) =~= rest);
        assert(Seq::<char>::empty() =~= s);
    } else {
        let ahead = json_escaped(s.skip(1)) + seq!['"'] + rest;
        law_escape_round_trip(s.skip(1), rest);
        let e = escape(s[0]);
        assert(t =~= e + ahead);
        assert(t.skip(e.len() as int) =~= ahead);
        assert(t[0] == e[0]);
        if e.len() == 2 {
            assert(t[1] == e[1]);
        }
        assert(seq![s[0]] + s.skip(1) =~= s);
    }
}

/// An escaped text holds no line break and no tab.
pub proof fn law_escaped_one_line(s: Seq<char>)
    ensures
        forall|i: int|
            0 <= i < json_escaped(s).len() ==> (#[trigger] json_escaped(s)[i]) != '\n' && json_escaped(
                s,
            )[i] != '\r' && json_escaped(s)[i] != '\t',
    decreases s.len(),
{
    if s.len() > 0 {
        law_escaped_one_line(s.skip(1));
        let e = escape(s[0]);
        let r = json_escaped(s.skip(1));
        assert forall|i: int| 0 <= i < json_escaped(s).len() implies (#[trigger] json_escaped(s)[i])
            != '\n' && json_escaped(s)[i] != '\r' && json_escaped(s)[i] != '\t' by {
            if i >= e.len() {
                assert(json_escaped(s)[i] == r[i - e.len()]);
            }
        }
    }
}

/// Decimal notation is made of digits and writes its number.
pub proof fn law_decimal_value(n: nat)
    ensures
        decimal(n).len() > 0,
        all_digits(decimal(n)),
        digits_value(decimal(n)) == n,
    decreases n,
{
    let d = decimal(n);
    if n < 10 {
        assert(d.drop_last() =~= Seq::empty());
        assert(digits_value(d.drop_last()) == 0);
    } else {
        law_decimal_value(n / 10);
        assert(d.drop_last() =~= decimal(n / 10));
    }
}

/// Zeros in front of a number do not change it.
pub proof fn law_decimal4_value(n: nat)
    ensures
        decimal4(n).len() >= 4,
        all_digits(decimal4(n)),
        digits_value(decimal4(n)) == n,
{
    law_decimal_value(n);
    let d = decimal(n);
    if d.len() < 4 {
        let pad = Seq::new((4 - d.len()) as nat, |i: int| '0');
        lemma_leading_zeros(pad, d);
    }
}

proof fn lemma_leading_zeros(pad: Seq<char>, d: Seq<char>)
    requires
        forall|i: int| 0 <= i < pad.len() ==> #[trigger] pad[i] == '0',
    ensures
        digits_value(pad + d) == digits_value(d),
    decreases d.len(), pad.len(),
{
    if d.len() > 0 {
        lemma_leading_zeros(pad, d.drop_last());
        assert((pad + d).drop_last() =~= pad + d.drop_last());
    } else if pad.len() > 0 {
        lemma_leading_zeros(pad.drop_last(), d);
        assert(pad + d =~= pad);
        assert(pad.drop_last() + d =~= pad.drop_last());
        assert(pad.last() == '0');
    } else {
        assert(pad + d =~= d);
    }
}

/// Reading decimal notation gives its number back.
pub proof fn law_parse_decimal(n: u64)
    ensures
        parsed(decimal(n as nat)) == Some(n),
{
    law_decimal_value(n as nat);
    assert(is_digit(decimal(n as nat)[0]));
}

} // verus!
