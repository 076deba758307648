//! Pieces of the status display: switches, durations and table rows.

use vstd::prelude::*;
use crate::ansi::{FormattedString, Style};
use crate::decimal::{decimal, lemma_decimal_digits, push_decimal};
use crate::table::Row;
use crate::text::push_char;

verus! {

/// `on` or `off`.
pub fn bool_on_off(b: bool) -> (r: &'static str)
    ensures
        r@ == if b {
            "on"@
        } else {
            "off"@
        },
{
    if b {
        "on"
    } else {
        "off"
    }
}

/// The decimal digits of `n` as characters, with a leading zero below ten.
pub open spec fn two_digits(n: nat) -> Seq<char> {
    let d = decimal(n).map_values(|b: u8| b as char);
    if n < 10 {
        seq!['0'] + d
    } else {
        d
    }
}

/// `minutes:seconds` of a duration in seconds, each with at least two
/// digits.
pub open spec fn duration_text(secs: nat) -> Seq<char> {
    two_digits(secs / 60) + seq![':'] + two_digits(secs % 60)
}

/// Appends the digits of `n` to `s`, with a leading zero below ten.
fn push_two_digits(s: &mut String, n: u64)
    ensures
        final(s)@ == old(s)@ + two_digits(n as nat),
{
    let ghost start = s@;
    if n < 10 {
        push_char(s, '0');
    }
    let ghost mid = s@;
    let mut digits: Vec<u8> = Vec::new();
    push_decimal(&mut digits, n);
    proof {
        lemma_decimal_digits(n as nat);
    }
    let mut i: usize = 0;
    while i < digits.len()
        invariant
            i <= digits@.len(),
            digits@ == decimal(n as nat),
            s@ == mid + digits@.subrange(0, i as int).map_values(|b: u8| b as char),
        decreases digits@.len() - i,
    {
        push_char(s, digits[i] as char);
        assert(digits@.subrange(0, i + 1).map_values(|b: u8| b as char) =~= digits@.subrange(0, i as int).map_values(
            |b: u8| b as char,
        ).push(digits@[i as int] as char));
        i = i + 1;
    }
    assert(digits@.subrange(0, digits@.len() as int) =~= digits@);
    assert(s@ =~= start + two_digits(n as nat));
}

/// A duration in seconds as `mm:ss`.
pub fn duration_format(secs: u64) -> (r: String)
    ensures
        r@ == duration_text(secs as nat),
{
    let mut s = String::new();
    push_two_digits(&mut s, secs / 60);
    push_char(&mut s, ':');
    push_two_digits(&mut s, secs % 60);
    assert(s@ =~= duration_text(secs as nat));
    s
}

/// A table row with a bold key and a plain value.
pub fn table_row<'a>(key: &'a str, val: &'a str) -> (r: Row<'a>)
    ensures
        r.fields@.len() == 2,
        r.fields@[0].string == key,
        r.fields@[0].style == Some(Style::Bold),
        r.fields@[1].string == val,
        r.fields@[1].style is None,
{
    let mut fields: Vec<FormattedString<'a>> = Vec::new();
    fields.push(FormattedString::new(key).style(Style::Bold));
    fields.push(FormattedString::new(val));
    Row::new(fields)
}

} // verus!
