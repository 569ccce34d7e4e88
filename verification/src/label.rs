//! The text that stands for a key where a tree is written out.
//!
//! The integer types are written as decimal numerals.

use vstd::prelude::*;
use vstd::string::StringExecFns;

verus! {

/// A value that can be written out as text.
pub trait Label {
    /// The text that stands for the value.
    spec fn label(&self) -> Seq<char>;

    /// Return the text that stands for the value.
    fn to_label(&self) -> (text: String)
        ensures
            text@ == self.label(),
    ;
}

/// The decimal digit for `d`, where `d` is below ten.
pub open spec fn digit(d: nat) -> char {
    if d == 0 {
        '0'
    } else if d == 1 {
        '1'
    } else if d == 2 {
        '2'
    } else if d == 3 {
        '3'
    } else if d == 4 {
        '4'
    } else if d == 5 {
        '5'
    } else if d == 6 {
        '6'
    } else if d == 7 {
        '7'
    } else if d == 8 {
        '8'
    } else {
        '9'
    }
}

/// The decimal numeral of `n`, without leading zeros.
pub open spec fn decimal(n: nat) -> Seq<char>
    decreases n,
{
    if n < 10 {
        seq![digit(n)]
    } else {
        decimal(n / 10).push(digit(n % 10))
    }
}

/// The decimal numeral of `n`, with a minus sign before it where `n` is
/// negative.
pub open spec fn signed_decimal(n: int) -> Seq<char> {
    if n < 0 {
        seq!['-'] + decimal((-n) as nat)
    } else {
        decimal(n as nat)
    }
}

/// Return the decimal digit for `d`.
pub fn digit_text(d: u8) -> (text: &'static str)
    requires
        d < 10,
    ensures
        text@ == seq![digit(d as nat)],
{
    proof {
        reveal_strlit("0");
        reveal_strlit("1");
        reveal_strlit("2");
        reveal_strlit("3");
        reveal_strlit("4");
        reveal_strlit("5");
        reveal_strlit("6");
        reveal_strlit("7");
        reveal_strlit("8");
        reveal_strlit("9");
    }
    let text = if d == 0 {
        "0"
    } else if d == 1 {
        "1"
    } else if d == 2 {
        "2"
    } else if d == 3 {
        "3"
    } else if d == 4 {
        "4"
    } else if d == 5 {
        "5"
    } else if d == 6 {
        "6"
    } else if d == 7 {
        "7"
    } else if d == 8 {
        "8"
    } else {
        "9"
    };
    text
}

/// Write the decimal numeral of `n` at the end of `out`.
pub fn push_decimal(out: &mut String, n: u128)
    ensures
        final(out)@ == old(out)@ + decimal(n as nat),
    decreases n,
{
    if n >= 10 {
        push_decimal(out, n / 10);
    }
    out.append(digit_text((n % 10) as u8));
}

/// Return the decimal numeral of `n`.
pub fn unsigned_text(n: u128) -> (text: String)
    ensures
        text@ == decimal(n as nat),
{
    let mut out = String::new();
    push_decimal(&mut out, n);
    out
}

/// Return the decimal numeral of `n`, with a minus sign before it where `n`
/// is negative.
pub fn signed_text(n: i128) -> (text: String)
    ensures
        text@ == signed_decimal(n as int),
{
    let mut out = String::new();
    if n < 0 {
        proof {
            reveal_strlit("-");
        }
        out.append("-");
        let m: u128 = (-(n + 1)) as u128 + 1;
        push_decimal(&mut out, m);
    } else {
        push_decimal(&mut out, n as u128);
    }
    out
}

impl Label for u8 {
    open spec fn label(&self) -> Seq<char> {
        decimal(*self as nat)
    }

    fn to_label(&self) -> (text: String) {
        unsigned_text(*self as u128)
    }
}

impl Label for u16 {
    open spec fn label(&self) -> Seq<char> {
        decimal(*self as nat)
    }

    fn to_label(&self) -> (text: String) {
        unsigned_text(*self as u128)
    }
}

impl Label for u32 {
    open spec fn label(&self) -> Seq<char> {
        decimal(*self as nat)
    }

    fn to_label(&self) -> (text: String) {
        unsigned_text(*self as u128)
    }
}

impl Label for u64 {
    open spec fn label(&self) -> Seq<char> {
        decimal(*self as nat)
    }

    fn to_label(&self) -> (text: String) {
        unsigned_text(*self as u128)
    }
}

impl Label for u128 {
    open spec fn label(&self) -> Seq<char> {
        decimal(*self as nat)
    }

    fn to_label(&self) -> (text: String) {
        unsigned_text(*self)
    }
}

impl Label for usize {
    open spec fn label(&self) -> Seq<char> {
        decimal(*self as nat)
    }

    fn to_label(&self) -> (text: String) {
        unsigned_text(*self as u128)
    }
}

impl Label for i8 {
    open spec fn label(&self) -> Seq<char> {
        signed_decimal(*self as int)
    }

    fn to_label(&self) -> (text: String) {
        signed_text(*self as i128)
    }
}

impl Label for i16 {
    open spec fn label(&self) -> Seq<char> {
        signed_decimal(*self as int)
    }

    fn to_label(&self) -> (text: String) {
        signed_text(*self as i128)
    }
}

impl Label for i32 {
    open spec fn label(&self) -> Seq<char> {
        signed_decimal(*self as int)
    }

    fn to_label(&self) -> (text: String) {
        signed_text(*self as i128)
    }
}

impl Label for i64 {
    open spec fn label(&self) -> Seq<char> {
        signed_decimal(*self as int)
    }

    fn to_label(&self) -> (text: String) {
        signed_text(*self as i128)
    }
}

impl Label for i128 {
    open spec fn label(&self) -> Seq<char> {
        signed_decimal(*self as int)
    }

    fn to_label(&self) -> (text: String) {
        signed_text(*self)
    }
}

impl Label for isize {
    open spec fn label(&self) -> Seq<char> {
        signed_decimal(*self as int)
    }

    fn to_label(&self) -> (text: String) {
        signed_text(*self as i128)
    }
}

} // verus!
