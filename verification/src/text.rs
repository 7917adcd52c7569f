//! Numbers written out for messages.
use crate::params_json::{are_digits, digits_value, is_digit};
use vstd::prelude::*;
use vstd::string::*;

verus! {

/// The decimal digit `d`.
pub open spec fn digit_char(d: int) -> char {
    if d == 0 {
        '0'
    } else if d == 1 {
        '1'
    } else if d == 2 {
        '2'
    } else if d == 3 {
        '3'
    } else if d == 4 {
        '4'
    } else if d == 5 {
        '5'
    } else if d == 6 {
        '6'
    } else if d == 7 {
        '7'
    } else if d == 8 {
        '8'
    } else if d == 9 {
        '9'
    } else if d == 10 {
        'a'
    } else if d == 11 {
        'b'
    } else if d == 12 {
        'c'
    } else if d == 13 {
        'd'
    } else if d == 14 {
        'e'
    } else {
        'f'
    }
}

/// A number in decimal.
pub open spec fn decimal(v: nat) -> Seq<char>
    decreases v,
{
    if v < 10 {
        seq![digit_char(v as int)]
    } else {
        decimal(v / 10).push(digit_char((v % 10) as int))
    }
}

/// A byte as two lower-case hexadecimal digits.
pub open spec fn hex_byte(v: u8) -> Seq<char> {
    seq![digit_char(v as int / 16), digit_char(v as int % 16)]
}

/// The digit `d` as text.
fn digit_text(d: u64) -> (r: &'static str)
    requires
        d < 16,
    ensures
        r@ == seq![digit_char(d as int)],
{
    proof {
        reveal_strlit("0");
        reveal_strlit("1");
        reveal_strlit("2");
        reveal_strlit("3");
        reveal_strlit("4");
        reveal_strlit("5");
        reveal_strlit("6");
        reveal_strlit("7");
        reveal_strlit("8");
        reveal_strlit("9");
        reveal_strlit("a");
        reveal_strlit("b");
        reveal_strlit("c");
        reveal_strlit("d");
        reveal_strlit("e");
        reveal_strlit("f");
    }
    let r: &'static str = match d {
        0 => "0",
        1 => "1",
        2 => "2",
        3 => "3",
        4 => "4",
        5 => "5",
        6 => "6",
        7 => "7",
        8 => "8",
        9 => "9",
        10 => "a",
        11 => "b",
        12 => "c",
        13 => "d",
        14 => "e",
        _ => "f",
    };
    assert(r@ =~= seq![digit_char(d as int)]);
    r
}

/// Writes `v` in decimal.
pub fn decimal_text(v: u64) -> (r: String)
    ensures
        r@ == decimal(v as nat),
    decreases v,
{
    if v < 10 {
        String::from_str(digit_text(v))
    } else {
        let mut s: String = decimal_text(v / 10);
        s.append(digit_text(v % 10));
        assert(s@ =~= decimal(v as nat));
        s
    }
}

/// Writes `v` as two hexadecimal digits.
pub fn hex_byte_text(v: u8) -> (r: String)
    ensures
        r@ == hex_byte(v),
{
    let mut s: String = String::from_str(digit_text(v as u64 / 16));
    s.append(digit_text(v as u64 % 16));
    assert(s@ =~= hex_byte(v));
    s
}

/// `a`, `x` in decimal, `b`, `y` in decimal.
pub fn text_two_numbers(a: &str, x: u64, b: &str, y: u64) -> (r: String)
    ensures
        r@ == a@ + decimal(x as nat) + b@ + decimal(y as nat),
{
    let mut s: String = String::from_str(a);
    s.append(decimal_text(x).as_str());
    s.append(b);
    s.append(decimal_text(y).as_str());
    s
}

/// A number reads back from its decimal digits.
pub proof fn decimal_reads_back(v: nat)
    ensures
        are_digits(decimal(v)),
        digits_value(decimal(v)) == v,
        decimal(v).len() > 1 ==> decimal(v)[0] != '0',
    decreases v,
{
    let s = decimal(v);
    if v < 10 {
        assert(s.drop_last() =~= Seq::<char>::empty());
        assert(digits_value(Seq::<char>::empty()) == 0);
    } else {
        decimal_reads_back(v / 10);
        let t = decimal(v / 10);
        assert(s.drop_last() =~= t);
        assert(s.last() == digit_char((v % 10) as int));
        assert(is_digit(s.last()));
        if v / 10 < 10 {
            assert(t[0] == digit_char((v / 10) as int));
        } else {
            decimal_reads_back((v / 10) / 10);
            assert(t.len() > 1);
        }
        assert(s[0] == t[0]);
    }
}

} // verus!
