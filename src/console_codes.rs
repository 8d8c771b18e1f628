use vstd::prelude::*;

use crate::parser::{all_digits, decimal_value, ESC};

verus! {

/// Clears the screen.
pub const CLEAR: &'static str = "\x1b[2J";

/// Asks the terminal to report button presses and drags.
pub const MOUSE_POS_REPORT: &'static str = "\x1b[?1002h";

/// Asks the terminal to report positions in pixels, in the extended format.
pub const MOUSE_PIXEL_REPORT: &'static str = "\x1b[?1016h";

/// Hides the cursor.
pub const HIDE_CURSOR: &'static str = "\x1b[?25l";

/// `d` spells `n` in decimal, without a leading zero.
pub open spec fn is_decimal_of(d: Seq<char>, n: nat) -> bool {
    &&& d.len() > 0
    &&& all_digits(d)
    &&& decimal_value(d) == n
    &&& (d.len() == 1 || d[0] != '0')
}

/// Relies on `ToString` for `usize` (its `Display`): the number in decimal digits,
/// with no sign and no leading zero.
#[verifier::external_body]
fn decimal_string(n: usize) -> (r: String)
    ensures
        is_decimal_of(r@, n as nat),
{
    n.to_string()
}

/// The escape sequence that moves the cursor to 1-based `row` and `col`.
pub fn goto(row: usize, col: usize) -> (r: String)
    ensures
        exists|a: Seq<char>, b: Seq<char>|
            is_decimal_of(a, row as nat) && is_decimal_of(b, col as nat) && r@ == seq![ESC, '[']
                + a + seq![';'] + b + seq!['H'],
{
    let a = decimal_string(row);
    let b = decimal_string(col);
    let mut r = String::from_str("\x1b[");
    r.append(a.as_str());
    r.append(";");
    r.append(b.as_str());
    r.append("H");
    proof {
        reveal_strlit("\x1b[");
        reveal_strlit(";");
        reveal_strlit("H");
        assert(r@ =~= seq![ESC, '['] + a@ + seq![';'] + b@ + seq!['H']);
    }
    r
}

} // verus!
