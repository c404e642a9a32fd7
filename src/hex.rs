//! Block numbers written as hexadecimal quantities.
use vstd::prelude::*;

use std::num::ParseIntError;

verus! {

#[verifier::external_type_specification]
#[verifier::external_body]
pub struct ExParseIntError(ParseIntError);

/// `c` is one of `0-9`, `a-f`, `A-F`.
pub open spec fn is_hex_digit(c: char) -> bool {
    ||| ('0' as u32 <= c as u32 && c as u32 <= '9' as u32)
    ||| ('a' as u32 <= c as u32 && c as u32 <= 'f' as u32)
    ||| ('A' as u32 <= c as u32 && c as u32 <= 'F' as u32)
}

/// The value of the hexadecimal digit `c`.
pub open spec fn hex_digit_value(c: char) -> int {
    if '0' as u32 <= c as u32 && c as u32 <= '9' as u32 {
        c as u32 - '0' as u32
    } else if 'a' as u32 <= c as u32 && c as u32 <= 'f' as u32 {
        c as u32 - 'a' as u32 + 10
    } else {
        c as u32 - 'A' as u32 + 10
    }
}

/// The number that the hexadecimal digits `s` write, most significant first.
pub open spec fn hex_value(s: Seq<char>) -> int
    decreases s.len(),
{
    if s.len() == 0 {
        0
    } else {
        hex_value(s.drop_last()) * 16 + hex_digit_value(s.last())
    }
}

/// `s` without a leading `+` sign.
pub open spec fn unsigned_digits(s: Seq<char>) -> Seq<char> {
    if s.len() > 0 && s[0] == '+' {
        s.drop_first()
    } else {
        s
    }
}

/// `s` is an optional `+` and one or more hexadecimal digits whose value fits in a `u64`.
pub open spec fn is_hex_u64(s: Seq<char>) -> bool {
    let d = unsigned_digits(s);
    &&& d.len() > 0
    &&& forall|i: int| 0 <= i < d.len() ==> is_hex_digit(#[trigger] d[i])
    &&& hex_value(d) <= u64::MAX
}

/// `s` without its double quotes.
pub open spec fn unquoted(s: Seq<char>) -> Seq<char> {
    s.filter(|c: char| c != '"')
}

/// `s` without every leading `0x`.
pub open spec fn strip_hex_prefix(s: Seq<char>) -> Seq<char>
    decreases s.len(),
{
    if s.len() >= 2 && s[0] == '0' && s[1] == 'x' {
        strip_hex_prefix(s.subrange(2, s.len() as int))
    } else {
        s
    }
}

/// Relies on std's str::replace: every `"` removed, the other characters kept in order.
#[verifier::external_body]
fn without_quotes(s: &str) -> (r: String)
    ensures
        r@ == unquoted(s@),
{
    s.replace('"', "")
}

/// Relies on std's str::trim_start_matches: the `0x` prefixes removed as often as they repeat.
#[verifier::external_body]
fn trim_hex_prefix(s: &str) -> (r: &str)
    ensures
        r@ == strip_hex_prefix(s@),
{
    s.trim_start_matches("0x")
}

/// Relies on std's u64::from_str_radix in base 16: an optional `+` and hexadecimal
/// digits parse to their value when it fits; anything else is an error.
#[verifier::external_body]
fn parse_hex_u64(s: &str) -> (r: Result<u64, ParseIntError>)
    ensures
        r.is_ok() <==> is_hex_u64(s@),
        r matches Ok(v) ==> v == hex_value(unsigned_digits(s@)),
{
    u64::from_str_radix(s, 16)
}

/// Reads a hexadecimal quantity such as `0x1b4`, ignoring double quotes and
/// any leading `0x`.
pub fn hex_to_decimal(hex_string: &str) -> (r: Result<u64, ParseIntError>)
    ensures
        r.is_ok() <==> is_hex_u64(strip_hex_prefix(unquoted(hex_string@))),
        r matches Ok(v) ==> v == hex_value(unsigned_digits(strip_hex_prefix(unquoted(hex_string@)))),
{
    let plain = without_quotes(hex_string);
    let digits = trim_hex_prefix(plain.as_str());
    parse_hex_u64(digits)
}

} // verus!
