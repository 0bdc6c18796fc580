//! Decimal rendering of unsigned integers, with optional left padding.

use vstd::prelude::*;
use vstd::string::StrSliceExecFns;
use vstd::string::StringExecFns;

verus! {

/// The decimal digit character for a value in `[0, 9]`.
pub open spec fn dec_digit(d: int) -> char {
    ((48 + d) as u8) as char
}

/// The decimal digit string of a non-negative integer, most significant
/// digit first, with no leading zeros (a lone `0` for zero).
pub open spec fn dec_seq(n: int) -> Seq<char>
    decreases n,
{
    if n < 10 {
        seq![dec_digit(n)]
    } else {
        dec_seq(n / 10).push(dec_digit(n % 10))
    }
}

/// `s` left-padded with copies of `fill` up to width `w`; `s` itself when it
/// is already at least `w` long.
pub open spec fn pad_left(s: Seq<char>, w: int, fill: char) -> Seq<char> {
    if s.len() >= w {
        s
    } else {
        Seq::new((w - s.len()) as nat, |i: int| fill) + s
    }
}

/// The decimal digits of `n`, zero-padded to width `w`.
pub open spec fn zero_pad(n: int, w: int) -> Seq<char> {
    pad_left(dec_seq(n), w, '0')
}

/// The decimal digits of `n`, space-padded to width `w`.
pub open spec fn space_pad(n: int, w: int) -> Seq<char> {
    pad_left(dec_seq(n), w, ' ')
}

fn digit_str(d: u64) -> (r: &'static str)
    requires
        d < 10,
    ensures
        r@ == seq![dec_digit(d as int)],
{
    let r = match d {
        0 => "0",
        1 => "1",
        2 => "2",
        3 => "3",
        4 => "4",
        5 => "5",
        6 => "6",
        7 => "7",
        8 => "8",
        _ => "9",
    };
    proof {
        reveal_strlit("0");
        reveal_strlit("1");
        reveal_strlit("2");
        reveal_strlit("3");
        reveal_strlit("4");
        reveal_strlit("5");
        reveal_strlit("6");
        reveal_strlit("7");
        reveal_strlit("8");
        reveal_strlit("9");
        assert(r@ =~= seq![dec_digit(d as int)]);
    }
    r
}

/// Renders `n` in decimal.
pub fn u64_string(n: u64) -> (r: String)
    ensures
        r@ == dec_seq(n as int),
    decreases n,
{
    if n < 10 {
        digit_str(n).to_owned()
    } else {
        let mut s = u64_string(n / 10);
        s.append(digit_str(n % 10));
        proof {
            assert(s@ =~= dec_seq(n as int));
        }
        s
    }
}

/// Renders `n` in decimal, left-padded to `width` with the single character
/// of `fill`.
pub fn padded_u64(n: u64, width: usize, fill: &str) -> (r: String)
    requires
        fill@.len() == 1,
    ensures
        r@ == pad_left(dec_seq(n as int), width as int, fill@[0]),
{
    let digits = u64_string(n);
    let len: usize = digits.as_str().unicode_len();
    if len >= width {
        digits
    } else {
        let mut r = String::new();
        let mut i: usize = len;
        while i < width
            invariant
                len <= i <= width,
                len == dec_seq(n as int).len(),
                r@ =~= Seq::new((i - len) as nat, |j: int| fill@[0]),
                fill@.len() == 1,
            decreases width - i,
        {
            r.append(fill);
            i = i + 1;
            proof {
                assert(r@ =~= Seq::new((i - len) as nat, |j: int| fill@[0]));
            }
        }
        r.append(digits.as_str());
        proof {
            assert(r@ =~= pad_left(dec_seq(n as int), width as int, fill@[0]));
        }
        r
    }
}

/// Renders `n` zero-padded to two digits.
pub fn two_digits(n: u64) -> (r: String)
    ensures
        r@ == zero_pad(n as int, 2),
{
    proof {
        reveal_strlit("0");
        assert("0"@[0] == '0');
    }
    padded_u64(n, 2, "0")
}

/// Renders `n` space-padded to width two.
pub fn two_cols(n: u64) -> (r: String)
    ensures
        r@ == space_pad(n as int, 2),
{
    proof {
        reveal_strlit(" ");
        assert(" "@[0] == ' ');
    }
    padded_u64(n, 2, " ")
}

/// Renders `n` zero-padded to three digits.
pub fn three_digits(n: u64) -> (r: String)
    ensures
        r@ == zero_pad(n as int, 3),
{
    proof {
        reveal_strlit("0");
        assert("0"@[0] == '0');
    }
    padded_u64(n, 3, "0")
}

/// Renders `n` zero-padded to nine digits.
pub fn nine_digits(n: u64) -> (r: String)
    ensures
        r@ == zero_pad(n as int, 9),
{
    proof {
        reveal_strlit("0");
        assert("0"@[0] == '0');
    }
    padded_u64(n, 9, "0")
}

} // verus!
