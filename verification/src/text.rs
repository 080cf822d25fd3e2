//! Building text: decimal and hexadecimal digits, and strings from
//! characters.
use vstd::prelude::*;
use crate::archive::decimal;
use crate::cli::chars_of;

verus! {

/// The string made of the characters `v`, in order.
#[verifier::external_body]
pub fn string_from_chars(v: &Vec<char>) -> (r: String)
    ensures
        r@ == v@,
{
    v.iter().collect()
}

/// Appends the characters of `s` to `out`.
pub fn push_str(out: &mut Vec<char>, s: &str)
    ensures
        final(out)@ == old(out)@ + s@,
{
    let c = chars_of(s);
    let mut i: usize = 0;
    while i < c.len()
        invariant
            i <= c@.len(),
            c@ == s@,
            out@ == old(out)@ + c@.take(i as int),
        decreases c.len() - i,
    {
        out.push(c[i]);
        i = i + 1;
        proof {
            assert(c@.take(i as int) =~= c@.take(i - 1).push(c@[i - 1]));
        }
    }
    proof {
        assert(c@.take(c@.len() as int) =~= c@);
    }
}

/// Appends the decimal digits of `n` to `out`.
pub fn push_decimal(out: &mut Vec<char>, n: u64)
    ensures
        final(out)@ == old(out)@ + decimal(n as nat),
    decreases n,
{
    if n >= 10 {
        push_decimal(out, n / 10);
    }
    let d: u8 = (n % 10) as u8;
    out.push((48u8 + d) as char);
    proof {
        if n >= 10 {
            assert(old(out)@ + decimal(n as nat) =~= (old(out)@ + decimal((n / 10) as nat)).push(
                (48u8 + d) as char,
            ));
        } else {
            assert(old(out)@ + decimal(n as nat) =~= old(out)@.push((48u8 + d) as char));
        }
    }
}

/// The decimal form of `n`.
pub fn decimal_string(n: u64) -> (r: String)
    ensures
        r@ == decimal(n as nat),
{
    let mut v: Vec<char> = Vec::new();
    push_decimal(&mut v, n);
    proof {
        assert(v@ =~= decimal(n as nat));
    }
    string_from_chars(&v)
}

/// The hexadecimal digit of `d` (below 16), in lower case when `lower`.
pub open spec fn hex_digit(d: nat, lower: bool) -> char {
    if d < 10 {
        (48 + d) as char
    } else if lower {
        (87 + d) as char
    } else {
        (55 + d) as char
    }
}

/// The last `width` hexadecimal digits of `n`, most significant first.
pub open spec fn hex_digits(n: nat, width: nat, lower: bool) -> Seq<char>
    decreases width,
{
    if width == 0 {
        Seq::empty()
    } else {
        hex_digits(n / 16, (width - 1) as nat, lower).push(hex_digit(n % 16, lower))
    }
}

fn hex_char(d: u32, lower: bool) -> (r: char)
    requires
        d < 16,
    ensures
        r == hex_digit(d as nat, lower),
{
    if d < 10 {
        (48u8 + d as u8) as char
    } else if lower {
        (87u8 + d as u8) as char
    } else {
        (55u8 + d as u8) as char
    }
}

/// Appends the last `width` hexadecimal digits of `n` to `out`, padded with
/// zeros.
pub fn push_hex(out: &mut Vec<char>, n: u32, width: u32, lower: bool)
    ensures
        final(out)@ == old(out)@ + hex_digits(n as nat, width as nat, lower),
    decreases width,
{
    if width == 0 {
        proof {
            assert(old(out)@ + hex_digits(n as nat, 0, lower) =~= old(out)@);
        }
        return;
    }
    push_hex(out, n / 16, width - 1, lower);
    let c = hex_char(n % 16, lower);
    out.push(c);
    proof {
        assert(old(out)@ + hex_digits(n as nat, width as nat, lower) =~= (old(out)@ + hex_digits(
            (n / 16) as nat,
            (width - 1) as nat,
            lower,
        )).push(c));
    }
}

} // verus!
