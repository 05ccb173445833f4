//! Decimal numbers and JSON strings, described digit by digit and character by character.

use vstd::arithmetic::div_mod::lemma_div_denominator;
use vstd::arithmetic::power::{lemma_pow0, lemma_pow1, lemma_pow_adds, lemma_pow_positive, pow};
use vstd::prelude::*;

use crate::text::{
    all_digits, decimal, decimal4, digits_value, escape, is_digit, json_escaped, parsed,
    unsigned_part,
};

verus! {

/// The digit of weight `10^j` of a number.
pub open spec fn digit_of(n: nat, j: nat) -> int {
    n as int / pow(10, j) % 10
}

/// Whether a text writes a number in decimal notation: each character is the digit of its place,
/// and there is no higher digit.
pub open spec fn writes_number(s: Seq<char>, n: nat) -> bool {
    &&& s.len() > 0
    &&& n < pow(10, s.len())
    &&& forall|j: int|
        0 <= j < s.len() ==> #[trigger] s[j] as int == '0' as int + digit_of(
            n,
            (s.len() - 1 - j) as nat,
        )
}

proof fn lemma_digit_step(n: nat, j: nat)
    ensures
        digit_of(n, j + 1) == digit_of(n / 10, j),
        digit_of(n, 0) == n % 10,
        pow(10, j + 1) == 10 * pow(10, j),
        pow(10, j) > 0,
{
    lemma_pow0(10);
    lemma_pow1(10);
    lemma_pow_positive(10, j);
    lemma_pow_adds(10, 1, j);
    lemma_div_denominator(n as int, 10, pow(10, j));
}

/// Decimal notation writes the number, without a zero in front of it.
pub proof fn law_decimal_digits(n: nat)
    ensures
        writes_number(decimal(n), n),
        decimal(n).len() > 1 ==> decimal(n)[0] != '0',
    decreases n,
{
    let d = decimal(n);
    if n < 10 {
        lemma_digit_step(n, 0);
        lemma_pow1(10);
    } else {
        let p = decimal(n / 10);
        law_decimal_digits(n / 10);
        lemma_digit_step(n, p.len());
        assert forall|j: int| 0 <= j < d.len() implies #[trigger] d[j] as int == '0' as int
            + digit_of(n, (d.len() - 1 - j) as nat) by {
            if j < p.len() {
                assert(d[j] == p[j]);
                lemma_digit_step(n, (p.len() - 1 - j) as nat);
            } else {
                lemma_digit_step(n, 0);
            }
        }
        if p.len() == 1 {
            lemma_digit_step(n / 10, 0);
            lemma_pow1(10);
            assert(p[0] as int == '0' as int + digit_of(n / 10, 0));
        }
    }
}

/// Decimal notation with four digits at least writes the number, and has a zero in front of it
/// only where it has four digits.
pub proof fn law_decimal4_digits(n: nat)
    ensures
        writes_number(decimal4(n), n),
        decimal4(n).len() >= 4,
        decimal4(n).len() > 4 ==> decimal4(n)[0] != '0',
{
    law_decimal_digits(n);
    let d = decimal(n);
    if d.len() < 4 {
        let s = decimal4(n);
        lemma_pow_grows(d.len(), 4);
        assert forall|j: int| 0 <= j < 4 implies #[trigger] s[j] as int == '0' as int + digit_of(
            n,
            (3 - j) as nat,
        ) by {
            if j < 4 - d.len() {
                lemma_no_digit(n, d.len(), (3 - j) as nat);
            } else {
                assert(s[j] == d[j - (4 - d.len())]);
            }
        }
    }
}

proof fn lemma_pow_grows(a: nat, b: nat)
    requires
        a <= b,
    ensures
        pow(10, a) <= pow(10, b),
    decreases b - a,
{
    if a < b {
        lemma_pow_grows(a, (b - 1) as nat);
        lemma_digit_step(0, (b - 1) as nat);
    }
}

proof fn lemma_no_digit(n: nat, len: nat, j: nat)
    requires
        n < pow(10, len),
        len <= j,
    ensures
        digit_of(n, j) == 0,
{
    lemma_pow_grows(len, j);
    let p = pow(10, j);
    assert(n as int / p == 0) by (nonlinear_arith)
        requires
            0 <= n < p,
    ;
}

/// Of texts of one character only a digit is read as a number, with or without a plus sign; the
/// empty text is not.
pub proof fn law_parse_one(c: char)
    ensures
        parsed(Seq::empty()) is None,
        '0' <= c <= '9' ==> parsed(seq![c]) == Some((c as int - '0' as int) as u64),
        '0' <= c <= '9' ==> parsed(seq!['+', c]) == Some((c as int - '0' as int) as u64),
        !('0' <= c <= '9') ==> parsed(seq![c]) is None,
        !('0' <= c <= '9') ==> parsed(seq!['+', c]) is None,
{
    assert(seq!['+', c].skip(1) =~= seq![c]);
    assert(seq![c].drop_last() =~= Seq::empty());
    reveal_with_fuel(digits_value, 2);
    assert(seq![c][0] == c);
    if c == '+' {
        assert(seq![c].skip(1) =~= Seq::empty());
    }
    if is_digit(c) {
        assert(all_digits(seq![c]));
    } else {
        assert(!is_digit(seq![c][0]));
    }
}

/// One more digit at the end of a text makes its number ten times as large and adds the digit, as
/// long as that fits in 64 bits; any other character, and any text that is no number, makes none.
pub proof fn law_parse_push(s: Seq<char>, c: char)
    requires
        s.len() > 0,
        s != seq!['+'],
    ensures
        parsed(s.push(c)) == match parsed(s) {
            Some(value) => if '0' <= c <= '9' && 10 * value + (c as int - '0' as int) <= u64::MAX {
                Some((10 * value + (c as int - '0' as int)) as u64)
            } else {
                None
            },
            None => None,
        },
{
    let body = unsigned_part(s);
    let t = s.push(c);
    let longer = unsigned_part(t);
    assert(t[0] == s[0]);
    if s[0] == '+' {
        if s.len() == 1 {
            assert(s =~= seq!['+']);
        }
    }
    assert(body.len() > 0);
    assert(longer =~= body.push(c));
    assert(longer.drop_last() =~= body);
    assert(longer.last() == c);
    if all_digits(longer) {
        assert forall|i: int| 0 <= i < body.len() implies is_digit(#[trigger] body[i]) by {
            assert(is_digit(longer[i]));
        }
        assert(is_digit(longer[body.len() as int]));
    } else if all_digits(body) {
        assert(!is_digit(c)) by {
            if is_digit(c) {
                assert forall|i: int| 0 <= i < longer.len() implies is_digit(
                    #[trigger] longer[i],
                ) by {
                    if i < body.len() {
                        assert(is_digit(body[i]));
                    }
                }
            }
        }
    }
}

/// Escaping works character by character.
pub proof fn law_escape_concat(a: Seq<char>, b: Seq<char>)
    ensures
        json_escaped(a + b) == json_escaped(a) + json_escaped(b),
    decreases a.len(),
{
    if a.len() == 0 {
        assert(a + b =~= b);
        assert(json_escaped(a) + json_escaped(b) =~= json_escaped(b));
    } else {
        law_escape_concat(a.skip(1), b);
        assert((a + b).skip(1) =~= a.skip(1) + b);
        assert(json_escaped(a + b) =~= json_escaped(a) + json_escaped(b));
    }
}

/// Whether a JSON string writes a character as itself.
pub open spec fn is_plain(c: char) -> bool {
    c != '"' && c != '\\' && c != '\n' && c != '\r' && c != '\t'
}

/// A text without quotes, backslashes, line breaks and tabs is not changed.
pub proof fn law_escape_plain(s: Seq<char>)
    requires
        forall|i: int| 0 <= i < s.len() ==> is_plain(#[trigger] s[i]),
    ensures
        json_escaped(s) == s,
    decreases s.len(),
{
    if s.len() > 0 {
        assert forall|i: int| 0 <= i < s.skip(1).len() implies is_plain(
            #[trigger] s.skip(1)[i],
        ) by {
            assert(is_plain(s[i + 1]));
        }
        law_escape_plain(s.skip(1));
        assert(is_plain(s[0]));
    }
    assert(json_escaped(s) =~= s);
}

/// Every other character is written as a backslash and one more character: itself for a quote and
/// a backslash, `n`, `r` and `t` for line feed, carriage return and tab.
pub proof fn law_escape_special(c: char)
    requires
        !is_plain(c),
    ensures
        ({
            let e = json_escaped(seq![c]);
            &&& e.len() == 2
            &&& e[0] == '\\'
            &&& c == '"' || c == '\\' ==> e[1] == c
            &&& c as int == 10 ==> e[1] == 'n'
            &&& c as int == 13 ==> e[1] == 'r'
            &&& c as int == 9 ==> e[1] == 't'
        }),
{
    reveal_with_fuel(json_escaped, 2);
    assert(json_escaped(seq![c]) =~= escape(c));
}

} // verus!
