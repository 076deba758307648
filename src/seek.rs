//! Seek positions such as `+1:30`, `-10` or `2:03:00`: an optional
//! direction followed by `:`-separated fields, read as hours, minutes and
//! seconds from the right (each field counts sixty of the one after it).

use vstd::prelude::*;
use crate::text::{split, split_on};

verus! {

/// Where a seek position is measured from.
#[derive(Clone, Copy, Debug, PartialEq, Eq, Structural)]
pub enum SeekDirection {
    /// `+`: forward from the current position.
    Forward,
    /// `-`: back from the current position.
    Back,
    /// No sign: from the start of the song.
    Absolute,
}

/// A parsed seek position.
#[derive(Clone, Copy, Debug, PartialEq, Eq, Structural)]
pub struct Arg {
    pub direction: SeekDirection,
    pub seconds: u32,
}

/// Why a seek position could not be read.
#[derive(Clone, Copy, Debug, PartialEq, Eq, Structural)]
pub enum ParseSeekError {
    /// The text is empty.
    EmptyString,
    /// A field is not an unsigned 32-bit integer.
    FieldNotInteger,
    /// The position does not fit in 32 bits of seconds.
    OutOfRange,
}

impl ParseSeekError {
    /// A short description of the error.
    pub fn message(&self) -> &'static str {
        match self {
            ParseSeekError::EmptyString => "Empty string.",
            ParseSeekError::FieldNotInteger => "Field is not integer.",
            ParseSeekError::OutOfRange => "Position is out of range.",
        }
    }
}

pub open spec fn is_digit(c: char) -> bool {
    '0' <= c && c <= '9'
}

/// The value of a string of decimal digits.
pub open spec fn digits_value(d: Seq<char>) -> nat
    decreases d.len(),
{
    if d.len() == 0 {
        0
    } else {
        digits_value(d.drop_last()) * 10 + (d.last() as nat - '0' as nat) as nat
    }
}

/// The digits of a field, after an optional leading `+`.
pub open spec fn field_digits(f: Seq<char>) -> Seq<char> {
    if f.len() > 0 && f[0] == '+' {
        f.drop_first()
    } else {
        f
    }
}

/// A field reads as an unsigned 32-bit integer: an optional `+`, then one
/// or more decimal digits whose value fits.
pub open spec fn valid_field(f: Seq<char>) -> bool {
    let d = field_digits(f);
    &&& d.len() > 0
    &&& forall|i: int| 0 <= i < d.len() ==> is_digit(#[trigger] d[i])
    &&& digits_value(d) <= u32::MAX
}

/// The fields read from the left, each one counting sixty of the next.
pub open spec fn fields_seconds(fs: Seq<Seq<char>>) -> nat
    decreases fs.len(),
{
    if fs.len() == 0 {
        0
    } else {
        fields_seconds(fs.drop_last()) * 60 + digits_value(field_digits(fs.last()))
    }
}

pub open spec fn direction_of(s: Seq<char>) -> SeekDirection {
    if s.len() > 0 && s[0] == '+' {
        SeekDirection::Forward
    } else if s.len() > 0 && s[0] == '-' {
        SeekDirection::Back
    } else {
        SeekDirection::Absolute
    }
}

/// The text after the direction sign.
pub open spec fn fields_text(s: Seq<char>) -> Seq<char> {
    if direction_of(s) == SeekDirection::Absolute {
        s
    } else {
        s.drop_first()
    }
}

/// The meaning of a seek position.
pub open spec fn parse_seek(s: Seq<char>) -> Result<Arg, ParseSeekError> {
    let fs = split_on(fields_text(s), ':');
    if s.len() == 0 {
        Err(ParseSeekError::EmptyString)
    } else if !(forall|i: int| 0 <= i < fs.len() ==> valid_field(#[trigger] fs[i])) {
        Err(ParseSeekError::FieldNotInteger)
    } else if fields_seconds(fs) > u32::MAX {
        Err(ParseSeekError::OutOfRange)
    } else {
        Ok(Arg { direction: direction_of(s), seconds: fields_seconds(fs) as u32 })
    }
}

/// Reads one field as an unsigned 32-bit integer.
fn field_value(f: &str) -> (r: Option<u32>)
    ensures
        r is Some <==> valid_field(f@),
        r is Some ==> r->Some_0 as nat == digits_value(field_digits(f@)),
{
    let n = f.unicode_len();
    let start: usize = if n > 0 && f.get_char(0) == '+' { 1 } else { 0 };
    let ghost d = field_digits(f@);
    assert(d =~= f@.subrange(start as int, n as int));
    if start >= n {
        return None;
    }
    let mut value: u64 = 0;
    let mut i: usize = start;
    while i < n
        invariant
            n == f@.len(),
            start <= i <= n,
            d == field_digits(f@),
            d =~= f@.subrange(start as int, n as int),
            forall|j: int| 0 <= j < i - start ==> is_digit(#[trigger] d[j]),
            value as nat == digits_value(d.subrange(0, i - start)),
            value <= u32::MAX,
        decreases n - i,
    {
        let c = f.get_char(i);
        if c < '0' || c > '9' {
            assert(!is_digit(d[i - start]));
            return None;
        }
        let next = value * 10 + (c as u64 - '0' as u64);
        proof {
            let p = d.subrange(0, (i + 1 - start) as int);
            assert(p.drop_last() =~= d.subrange(0, i - start));
            assert(p.last() == c);
        }
        if next > u32::MAX as u64 {
            proof {
                if forall|j: int| 0 <= j < d.len() ==> is_digit(#[trigger] d[j]) {
                    lemma_digits_prefix_bound(d, (i + 1 - start) as nat);
                }
            }
            return None;
        }
        value = next;
        i = i + 1;
    }
    assert(d.subrange(0, d.len() as int) =~= d);
    Some(value as u32)
}

/// A longer string of digits is worth at least as much as its prefix.
proof fn lemma_digits_prefix_bound(d: Seq<char>, k: nat)
    requires
        k <= d.len(),
        forall|j: int| 0 <= j < d.len() ==> is_digit(#[trigger] d[j]),
    ensures
        digits_value(d.subrange(0, k as int)) <= digits_value(d),
    decreases d.len() - k,
{
    if k < d.len() {
        lemma_digits_prefix_bound(d, k + 1);
        let p = d.subrange(0, (k + 1) as int);
        assert(p.drop_last() =~= d.subrange(0, k as int));
        assert(is_digit(p.last()));
    } else {
        assert(d.subrange(0, k as int) =~= d);
    }
}

impl Arg {
    /// Reads a seek position.
    pub fn from_str(s: &str) -> (r: Result<Arg, ParseSeekError>)
        ensures
            r == parse_seek(s@),
    {
        let n = s.unicode_len();
        if n == 0 {
            return Err(ParseSeekError::EmptyString);
        }
        let first = s.get_char(0);
        let (direction, start) = if first == '+' {
            (SeekDirection::Forward, 1usize)
        } else if first == '-' {
            (SeekDirection::Back, 1usize)
        } else {
            (SeekDirection::Absolute, 0usize)
        };
        let text = s.substring_char(start, n);
        assert(text@ =~= fields_text(s@));
        let fields = split(text, ':');
        let ghost fs = split_on(fields_text(s@), ':');
        let mut values: Vec<u32> = Vec::new();
        let mut k: usize = 0;
        while k < fields.len()
            invariant
                k <= fields@.len(),
                s@.len() > 0,
                fs == split_on(fields_text(s@), ':'),
                fields@.map_values(|f: String| f@) == fs,
                values@.len() == k,
                forall|j: int| 0 <= j < k ==> valid_field(#[trigger] fs[j]),
                forall|j: int| 0 <= j < k ==> values@[j] as nat == digits_value(field_digits(#[trigger] fs[j])),
            decreases fields@.len() - k,
        {
            assert(fs[k as int] == fields@[k as int]@);
            match field_value(fields[k].as_str()) {
                Some(v) => values.push(v),
                None => {
                    assert(!valid_field(fs[k as int]));
                    return Err(ParseSeekError::FieldNotInteger);
                },
            }
            k = k + 1;
        }
        // Seconds so far, capped at one past the largest u32.
        let cap: u64 = u32::MAX as u64 + 1;
        let mut total: u64 = 0;
        let mut j: usize = 0;
        while j < values.len()
            invariant
                values@.len() == fs.len(),
                s@.len() > 0,
                fs == split_on(fields_text(s@), ':'),
                forall|m: int| 0 <= m < fs.len() ==> valid_field(#[trigger] fs[m]),
                cap == u32::MAX + 1,
                j <= values@.len(),
                forall|m: int| 0 <= m < values@.len() ==> values@[m] as nat == digits_value(field_digits(#[trigger] fs[m])),
                total as nat == if fields_seconds(fs.subrange(0, j as int)) < cap {
                    fields_seconds(fs.subrange(0, j as int))
                } else {
                    cap as nat
                },
            decreases values@.len() - j,
        {
            let next = total * 60 + values[j] as u64;
            total = if next < cap { next } else { cap };
            proof {
                let p = fs.subrange(0, (j + 1) as int);
                assert(p.drop_last() =~= fs.subrange(0, j as int));
                assert(p.last() == fs[j as int]);
            }
            j = j + 1;
        }
        assert(fs.subrange(0, fs.len() as int) =~= fs);
        if total >= cap {
            return Err(ParseSeekError::OutOfRange);
        }
        Ok(Arg { direction, seconds: total as u32 })
    }
}

} // verus!
