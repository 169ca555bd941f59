//! The line format shared by the pool sizing input and the job input: two
//! unsigned decimal numbers separated by white space.
//!
//! A line is cut into fields at runs of white space. Only the first two
//! fields are read; what follows them is ignored.

use vstd::prelude::*;
use vstd::string::StrSliceExecFns;

verus! {

/// Why a line is not a record.
#[derive(Debug, Clone, Copy, PartialEq, Eq)]
pub enum ParseError {
    /// The line has fewer than two fields.
    MissingNumber,
    /// A field is not an unsigned decimal number that fits its type.
    NotANumber,
}

/// `c` is white space: a character with the Unicode property `White_Space`.
pub open spec fn is_space(c: char) -> bool {
    let u = c as u32;
    ||| 0x09 <= u <= 0x0d
    ||| u == 0x20
    ||| u == 0x85
    ||| u == 0xa0
    ||| u == 0x1680
    ||| 0x2000 <= u <= 0x200a
    ||| u == 0x2028
    ||| u == 0x2029
    ||| u == 0x202f
    ||| u == 0x205f
    ||| u == 0x3000
}

/// `c` is one of the digits `0` to `9`.
pub open spec fn is_digit(c: char) -> bool {
    0x30 <= c as u32 <= 0x39
}

/// The first position at or after `from` that holds no white space, or the
/// length of `s` if there is none.
pub open spec fn skip_spaces(s: Seq<char>, from: int) -> int
    decreases s.len() - from,
{
    if 0 <= from < s.len() && is_space(s[from]) {
        skip_spaces(s, from + 1)
    } else {
        from
    }
}

/// The first position at or after `from` that holds white space, or the
/// length of `s` if there is none.
pub open spec fn skip_field(s: Seq<char>, from: int) -> int
    decreases s.len() - from,
{
    if 0 <= from < s.len() && !is_space(s[from]) {
        skip_field(s, from + 1)
    } else {
        from
    }
}

/// Where field `n` of `s` starts, counting from zero; the length of `s` if
/// `s` has no such field.
pub open spec fn field_start(s: Seq<char>, n: nat) -> int
    decreases n,
{
    if n == 0 {
        skip_spaces(s, 0)
    } else {
        skip_spaces(s, skip_field(s, field_start(s, (n - 1) as nat)))
    }
}

/// Field `n` of `s`: the `n`-th maximal run of characters that are not white
/// space.
pub open spec fn field(s: Seq<char>, n: nat) -> Option<Seq<char>> {
    let start = field_start(s, n);
    if 0 <= start < s.len() {
        Some(s.subrange(start, skip_field(s, start)))
    } else {
        None
    }
}

/// `s` holds nothing but white space.
pub open spec fn is_blank(s: Seq<char>) -> bool {
    forall|i: int| 0 <= i < s.len() ==> is_space(#[trigger] s[i])
}

/// Every character of `s` is a digit.
pub open spec fn all_digits(s: Seq<char>) -> bool {
    forall|i: int| 0 <= i < s.len() ==> is_digit(#[trigger] s[i])
}

/// The number that the digits `s` write in base ten.
pub open spec fn decimal(s: Seq<char>) -> nat
    decreases s.len(),
{
    if s.len() == 0 {
        0
    } else {
        decimal(s.drop_last()) * 10 + (s.last() as u32 - 0x30) as nat
    }
}

/// `s` without the plus sign that may stand in front of a number.
pub open spec fn unsigned(s: Seq<char>) -> Seq<char> {
    if s.len() > 0 && s[0] == '+' {
        s.subrange(1, s.len() as int)
    } else {
        s
    }
}

/// The number that `s` writes, if `s` is an optional plus sign followed by
/// at least one digit and nothing else, and the number is at most `max`.
pub open spec fn number(s: Seq<char>, max: nat) -> Option<nat> {
    let digits = unsigned(s);
    if digits.len() > 0 && all_digits(digits) && decimal(digits) <= max {
        Some(decimal(digits))
    } else {
        None
    }
}

/// The record that `line` holds: its first field as a 16-bit number and its
/// second as a 32-bit number. The fields are examined in order, and the first
/// one that is absent or is no number decides the error.
pub open spec fn record(line: Seq<char>) -> Result<(u16, u32), ParseError> {
    match field(line, 0) {
        None => Err(ParseError::MissingNumber),
        Some(first) => match number(first, u16::MAX as nat) {
            None => Err(ParseError::NotANumber),
            Some(a) => match field(line, 1) {
                None => Err(ParseError::MissingNumber),
                Some(second) => match number(second, u32::MAX as nat) {
                    None => Err(ParseError::NotANumber),
                    Some(b) => Ok((a as u16, b as u32)),
                },
            },
        },
    }
}

/// A number is at least the number written by any of its leading digits.
proof fn lemma_decimal_prefix(s: Seq<char>, n: int)
    requires
        0 <= n <= s.len(),
    ensures
        decimal(s.take(n)) <= decimal(s),
    decreases s.len(),
{
    if n == s.len() {
        assert(s.take(n) =~= s);
    } else {
        lemma_decimal_prefix(s.drop_last(), n);
        assert(s.drop_last().take(n) =~= s.take(n));
    }
}

/// `skip_spaces` stops at the first position from `from` on that holds no
/// white space.
proof fn lemma_skip_spaces(s: Seq<char>, from: int)
    requires
        0 <= from <= s.len(),
    ensures
        from <= skip_spaces(s, from) <= s.len(),
        forall|i: int| from <= i < skip_spaces(s, from) ==> is_space(#[trigger] s[i]),
        skip_spaces(s, from) < s.len() ==> !is_space(s[skip_spaces(s, from)]),
    decreases s.len() - from,
{
    if from < s.len() && is_space(s[from]) {
        lemma_skip_spaces(s, from + 1);
    }
}

/// `skip_field` stops at the first position from `from` on that holds white
/// space.
proof fn lemma_skip_field(s: Seq<char>, from: int)
    requires
        0 <= from <= s.len(),
    ensures
        from <= skip_field(s, from) <= s.len(),
        forall|i: int| from <= i < skip_field(s, from) ==> !is_space(#[trigger] s[i]),
        skip_field(s, from) < s.len() ==> is_space(s[skip_field(s, from)]),
    decreases s.len() - from,
{
    if from < s.len() && !is_space(s[from]) {
        lemma_skip_field(s, from + 1);
    }
}

/// Whether `c` is white space.
fn is_space_char(c: char) -> (b: bool)
    ensures
        b == is_space(c),
{
    let u: u32 = c as u32;
    (0x09 <= u && u <= 0x0d) || u == 0x20 || u == 0x85 || u == 0xa0 || u == 0x1680 || (0x2000 <= u
        && u <= 0x200a) || u == 0x2028 || u == 0x2029 || u == 0x202f || u == 0x205f || u == 0x3000
}

/// Finds the end of the white space that starts at `from`.
fn find_field(line: &str, len: usize, from: usize) -> (at: usize)
    requires
        len == line@.len(),
        from <= len,
    ensures
        at == skip_spaces(line@, from as int),
        from <= at <= len,
{
    let mut i: usize = from;
    while i < len
        invariant
            len == line@.len(),
            from <= i <= len,
            skip_spaces(line@, from as int) == skip_spaces(line@, i as int),
        decreases len - i,
    {
        if !is_space_char(line.get_char(i)) {
            return i;
        }
        i += 1;
    }
    i
}

/// Finds the end of the field that starts at `from`.
fn find_space(line: &str, len: usize, from: usize) -> (at: usize)
    requires
        len == line@.len(),
        from <= len,
    ensures
        at == skip_field(line@, from as int),
        from <= at <= len,
{
    let mut i: usize = from;
    while i < len
        invariant
            len == line@.len(),
            from <= i <= len,
            skip_field(line@, from as int) == skip_field(line@, i as int),
        decreases len - i,
    {
        if is_space_char(line.get_char(i)) {
            return i;
        }
        i += 1;
    }
    i
}

/// Reads the number that the characters of `line` from `from` up to `to`
/// write.
fn read_number(line: &str, from: usize, to: usize, max: u64) -> (result: Option<u64>)
    requires
        from <= to <= line@.len(),
        max <= u32::MAX,
    ensures
        match number(line@.subrange(from as int, to as int), max as nat) {
            Some(n) => result == Some(n as u64),
            None => result is None,
        },
{
    let ghost token = line@.subrange(from as int, to as int);
    let mut start: usize = from;
    if start < to && line.get_char(start) == '+' {
        start += 1;
    }
    let ghost digits = line@.subrange(start as int, to as int);
    assert(digits =~= unsigned(token));
    if start == to {
        return None;
    }
    let mut acc: u64 = 0;
    let mut i: usize = start;
    while i < to
        invariant
            from <= start <= i <= to <= line@.len(),
            digits == line@.subrange(start as int, to as int),
            digits == unsigned(line@.subrange(from as int, to as int)),
            all_digits(digits.take(i - start)),
            acc == decimal(digits.take(i - start)),
            acc <= max <= u32::MAX,
        decreases to - i,
    {
        let c = line.get_char(i);
        let u: u32 = c as u32;
        let ghost seen = digits.take(i - start);
        let ghost more = digits.take(i + 1 - start);
        assert(more.drop_last() =~= seen);
        assert(more.last() == c);
        if u < 0x30 || u > 0x39 {
            assert(!is_digit(digits[i - start]));
            return None;
        }
        acc = acc * 10 + (u - 0x30) as u64;
        assert(acc == decimal(more));
        if acc > max {
            proof {
                lemma_decimal_prefix(digits, i + 1 - start);
            }
            return None;
        }
        assert forall|j: int| 0 <= j < more.len() implies is_digit(#[trigger] more[j]) by {
            if j < seen.len() {
                assert(more[j] == seen[j]);
            }
        }
        i += 1;
    }
    assert(digits.take(i - start) =~= digits);
    Some(acc)
}

/// Whether `line` holds nothing but white space.
pub fn blank(line: &str) -> (b: bool)
    ensures
        b == is_blank(line@),
{
    let len = line.unicode_len();
    proof {
        lemma_skip_spaces(line@, 0);
    }
    find_field(line, len, 0) >= len
}

/// Reads the record that `line` holds.
pub fn parse_record(line: &str) -> (result: Result<(u16, u32), ParseError>)
    ensures
        result == record(line@),
{
    let len = line.unicode_len();
    let first = find_field(line, len, 0);
    if first >= len {
        return Err(ParseError::MissingNumber);
    }
    let first_end = find_space(line, len, first);
    let a = match read_number(line, first, first_end, 0xffff) {
        None => {
            return Err(ParseError::NotANumber);
        },
        Some(a) => a,
    };
    let second = find_field(line, len, first_end);
    assert(second == field_start(line@, 1)) by {
        reveal_with_fuel(field_start, 2);
    }
    if second >= len {
        return Err(ParseError::MissingNumber);
    }
    let second_end = find_space(line, len, second);
    let b = match read_number(line, second, second_end, 0xffff_ffff) {
        None => {
            return Err(ParseError::NotANumber);
        },
        Some(b) => b,
    };
    Ok((a as u16, b as u32))
}

} // verus!
