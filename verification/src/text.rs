//! Rendering integers as decimal text, and the trait the linked lists use to
//! print their elements.

use vstd::prelude::*;
use vstd::string::StringExecFns;

verus! {

/// The character for one decimal digit.
pub open spec fn digit_char(d: int) -> char {
    if d == 0 {
        '0'
    } else if d == 1 {
        '1'
    } else if d == 2 {
        '2'
    } else if d == 3 {
        '3'
    } else if d == 4 {
        '4'
    } else if d == 5 {
        '5'
    } else if d == 6 {
        '6'
    } else if d == 7 {
        '7'
    } else if d == 8 {
        '8'
    } else {
        '9'
    }
}

/// The decimal rendering of a non-negative integer.
pub open spec fn dec_spec(n: int) -> Seq<char>
    decreases n,
{
    if n < 10 {
        seq![digit_char(n)]
    } else {
        dec_spec(n / 10) + seq![digit_char(n % 10)]
    }
}

/// The decimal rendering of an integer, with a leading minus sign when
/// negative.
pub open spec fn dec_signed_spec(n: int) -> Seq<char> {
    if n < 0 {
        seq!['-'] + dec_spec(-n)
    } else {
        dec_spec(n)
    }
}

/// One decimal digit as a string slice.
fn digit_str(d: u64) -> (r: &'static str)
    requires
        d < 10,
    ensures
        r@ == seq![digit_char(d as int)],
{
    proof {
        reveal_strlit("0");
        reveal_strlit("1");
        reveal_strlit("2");
        reveal_strlit("3");
        reveal_strlit("4");
        reveal_strlit("5");
        reveal_strlit("6");
        reveal_strlit("7");
        reveal_strlit("8");
        reveal_strlit("9");
    }
    let r = if d == 0 {
        "0"
    } else if d == 1 {
        "1"
    } else if d == 2 {
        "2"
    } else if d == 3 {
        "3"
    } else if d == 4 {
        "4"
    } else if d == 5 {
        "5"
    } else if d == 6 {
        "6"
    } else if d == 7 {
        "7"
    } else if d == 8 {
        "8"
    } else {
        "9"
    };
    proof {
        assert(r@ =~= seq![digit_char(d as int)]);
    }
    r
}

/// Render a non-negative integer in decimal.
pub fn u64_to_string(n: u64) -> (s: String)
    ensures
        s@ == dec_spec(n as int),
    decreases n,
{
    if n < 10 {
        String::from_str(digit_str(n))
    } else {
        let mut s = u64_to_string(n / 10);
        s.append(digit_str(n % 10));
        s
    }
}

/// Render an integer in decimal, with a minus sign when negative.
pub fn i64_to_string(n: i64) -> (s: String)
    ensures
        s@ == dec_signed_spec(n as int),
{
    if n < 0 {
        let magnitude: u64 = ((-(n as i128)) as u64);
        proof {
            reveal_strlit("-");
        }
        let mut s = String::from_str("-");
        let rest = u64_to_string(magnitude);
        s.append(rest.as_str());
        proof {
            assert(s@ =~= dec_signed_spec(n as int));
        }
        s
    } else {
        u64_to_string(n as u64)
    }
}

/// A value with a textual rendering.
pub trait Text: Sized {
    /// What the rendering is.
    spec fn text_spec(&self) -> Seq<char>;

    /// Render the value.
    fn to_text(&self) -> (r: String)
        ensures
            r@ == self.text_spec(),
    ;
}

impl Text for i32 {
    open spec fn text_spec(&self) -> Seq<char> {
        dec_signed_spec(*self as int)
    }

    fn to_text(&self) -> (r: String) {
        i64_to_string(*self as i64)
    }
}

impl Text for i64 {
    open spec fn text_spec(&self) -> Seq<char> {
        dec_signed_spec(*self as int)
    }

    fn to_text(&self) -> (r: String) {
        i64_to_string(*self)
    }
}

impl Text for u64 {
    open spec fn text_spec(&self) -> Seq<char> {
        dec_spec(*self as int)
    }

    fn to_text(&self) -> (r: String) {
        u64_to_string(*self)
    }
}

} // verus!
