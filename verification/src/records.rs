//! The input record grammar and the fixed-format numeric parsers.
//!
//! A record is one line `<key>;<value>` where the key is 1 to 56 bytes
//! holding neither `;` nor a newline before the separator, and the value
//! matches `[-]d[.]d` or `[-]dd[.]d`: an optional minus, one or two integer
//! digits, a literal point, exactly one fractional digit. A value is
//! decoded as a tenths-scaled integer, so `-3.2` decodes to `-32`.

use vstd::prelude::*;
use cmov::Cmov;

verus! {

/// Conditional move. Relies on `cmov::Cmov::cmovnz` for `i32`: it stores
/// `value` into `dest` when the condition byte is non-zero and leaves
/// `dest` unchanged otherwise, in constant time.
#[verifier::external_body]
fn cmovnz_i32(dest: &mut i32, value: i32, condition: bool)
    ensures
        *final(dest) == if condition {
            value
        } else {
            *old(dest)
        },
{
    dest.cmovnz(&value, condition as u8)
}

pub open spec fn is_ascii_digit(b: u8) -> bool {
    0x30 <= b <= 0x39
}

pub open spec fn digit_val(b: u8) -> int {
    b - 0x30
}

/// Whether the bytes match the value grammar `[-]d[d].d`.
pub open spec fn valid_value(v: Seq<u8>) -> bool {
    ||| (v.len() == 3 && is_ascii_digit(v[0]) && v[1] == 0x2e && is_ascii_digit(v[2]))
    ||| (v.len() == 4 && is_ascii_digit(v[0]) && is_ascii_digit(v[1]) && v[2] == 0x2e
        && is_ascii_digit(v[3]))
    ||| (v.len() == 4 && v[0] == 0x2d && is_ascii_digit(v[1]) && v[2] == 0x2e && is_ascii_digit(
        v[3],
    ))
    ||| (v.len() == 5 && v[0] == 0x2d && is_ascii_digit(v[1]) && is_ascii_digit(v[2]) && v[3]
        == 0x2e && is_ascii_digit(v[4]))
}

/// The tenths-scaled integer a valid value decodes to.
pub open spec fn value_of(v: Seq<u8>) -> int {
    if v.len() == 3 {
        10 * digit_val(v[0]) + digit_val(v[2])
    } else if v.len() == 4 && v[0] == 0x2d {
        -(10 * digit_val(v[1]) + digit_val(v[3]))
    } else if v.len() == 4 {
        100 * digit_val(v[0]) + 10 * digit_val(v[1]) + digit_val(v[3])
    } else {
        -(100 * digit_val(v[1]) + 10 * digit_val(v[2]) + digit_val(v[4]))
    }
}

pub proof fn lemma_value_of_range(v: Seq<u8>)
    requires
        valid_value(v),
    ensures
        -999 <= value_of(v) <= 999,
{
}

/// The separator position: the first `;` of the line.
pub open spec fn is_sep_at(line: Seq<u8>, i: int) -> bool {
    &&& 0 <= i < line.len()
    &&& line[i] == 0x3b
    &&& forall|j: int| 0 <= j < i ==> line[j] != 0x3b
}

pub proof fn lemma_sep_unique(line: Seq<u8>, i: int, j: int)
    requires
        is_sep_at(line, i),
        is_sep_at(line, j),
    ensures
        i == j,
{
}

pub open spec fn sep_of(line: Seq<u8>) -> int {
    choose|i: int| is_sep_at(line, i)
}

/// Whether the line is a well-formed record: a nonempty key of at most 56
/// bytes, the separator, and a valid value.
pub open spec fn valid_record(line: Seq<u8>) -> bool {
    exists|i: int|
        is_sep_at(line, i) && 1 <= i <= 56 && valid_value(#[trigger] line.skip(i + 1))
}

/// The key of a well-formed record: the bytes before the separator.
pub open spec fn key_of(line: Seq<u8>) -> Seq<u8> {
    line.take(sep_of(line))
}

/// The decoded value of a well-formed record.
pub open spec fn temp_of(line: Seq<u8>) -> int {
    value_of(line.skip(sep_of(line) + 1))
}

/// A well-formed record spans at most 62 bytes: at most 56 key bytes, the
/// separator, and at most 5 value bytes.
pub proof fn lemma_valid_record_len(line: Seq<u8>)
    requires
        valid_record(line),
    ensures
        5 <= line.len() <= 62,
        is_sep_at(line, sep_of(line)),
        1 <= sep_of(line) <= 56,
        valid_value(line.skip(sep_of(line) + 1)),
        -999 <= temp_of(line) <= 999,
        1 <= key_of(line).len() <= 56,
{
    let i = choose|i: int|
        is_sep_at(line, i) && 1 <= i <= 56 && valid_value(#[trigger] line.skip(i + 1));
    lemma_sep_unique(line, i, sep_of(line));
    lemma_value_of_range(line.skip(i + 1));
    assert(line.skip(i + 1).len() == line.len() - i - 1);
}

/// The position of the newline ending the first line of the buffer.
pub open spec fn is_line_end_at(s: Seq<u8>, n: int) -> bool {
    &&& 0 <= n < s.len()
    &&& s[n] == 0x0a
    &&& forall|j: int| 0 <= j < n ==> s[j] != 0x0a
}

pub proof fn lemma_line_end_unique(s: Seq<u8>, n: int, m: int)
    requires
        is_line_end_at(s, n),
        is_line_end_at(s, m),
    ensures
        n == m,
{
}

pub open spec fn line_end_of(s: Seq<u8>) -> int {
    choose|n: int| is_line_end_at(s, n)
}

/// Whether the whole buffer is a sequence of newline-terminated
/// well-formed records.
pub open spec fn valid_input(s: Seq<u8>) -> bool
    decreases s.len(),
{
    s.len() == 0 || {
        &&& exists|n: int| is_line_end_at(s, n)
        &&& valid_record(s.take(line_end_of(s)))
        &&& valid_input(s.skip(line_end_of(s) + 1))
    }
}

/// The `(key, value)` pairs of the buffer's records, first record first.
pub open spec fn records_of(s: Seq<u8>) -> Seq<(Seq<u8>, int)>
    decreases s.len(),
{
    if s.len() == 0 {
        Seq::empty()
    } else if exists|n: int| is_line_end_at(s, n) {
        seq![(key_of(s.take(line_end_of(s))), temp_of(s.take(line_end_of(s))))] + records_of(
            s.skip(line_end_of(s) + 1),
        )
    } else {
        Seq::empty()
    }
}

/// Splitting off the first line: the buffer is valid exactly when that
/// line is a well-formed record and the rest is valid, and its records are
/// that record followed by the rest's records.
pub proof fn lemma_input_step(s: Seq<u8>, n: int)
    requires
        is_line_end_at(s, n),
    ensures
        valid_input(s) <==> (valid_record(s.take(n)) && valid_input(s.skip(n + 1))),
        records_of(s) == seq![(key_of(s.take(n)), temp_of(s.take(n)))] + records_of(s.skip(n + 1)),
{
    lemma_line_end_unique(s, n, line_end_of(s));
}

/// Maps a digit byte to its numeric value, as the low byte of the
/// difference from `'0'`.
pub fn digit_to_i32(d: u8) -> (r: i32)
    ensures
        0 <= r <= 255,
        is_ascii_digit(d) ==> r == digit_val(d),
    {
    d.wrapping_sub(0x30) as i32
}

/// Start-anchored decoder for a value known to match the grammar.
pub fn parse_value(v: &[u8]) -> (r: i32)
    requires
        valid_value(v@),
    ensures
        r as int == value_of(v@),
{
    proof {
        lemma_value_of_range(v@);
    }
    let n = v.len();
    if n == 3 {
        10 * digit_to_i32(v[0]) + digit_to_i32(v[2])
    } else if n == 4 && v[0] == 0x2d {
        -(10 * digit_to_i32(v[1]) + digit_to_i32(v[3]))
    } else if n == 4 {
        100 * digit_to_i32(v[0]) + 10 * digit_to_i32(v[1]) + digit_to_i32(v[3])
    } else {
        -(100 * digit_to_i32(v[1]) + 10 * digit_to_i32(v[2]) + digit_to_i32(v[4]))
    }
}

/// Whether the line ends with `;` followed by a valid value, the
/// end-anchored precondition of `parse_temperature`. For the shortest
/// shape `;d.d` the byte before the separator must not be `-`, since the
/// end-anchored decoder reads it to decide the sign.
pub open spec fn has_parseable_tail(line: Seq<u8>) -> bool {
    let n = line.len() as int;
    &&& n >= 5
    &&& {
        ||| (line[n - 4] == 0x3b && is_ascii_digit(line[n - 3]) && line[n - 2] == 0x2e
            && is_ascii_digit(line[n - 1]) && line[n - 5] != 0x2d)
        ||| (line[n - 5] == 0x3b && line[n - 4] == 0x2d && is_ascii_digit(line[n - 3]) && line[n
            - 2] == 0x2e && is_ascii_digit(line[n - 1]))
        ||| (line[n - 5] == 0x3b && is_ascii_digit(line[n - 4]) && is_ascii_digit(line[n - 3])
            && line[n - 2] == 0x2e && is_ascii_digit(line[n - 1]))
        ||| (n >= 6 && line[n - 6] == 0x3b && line[n - 5] == 0x2d && is_ascii_digit(line[n - 4])
            && is_ascii_digit(line[n - 3]) && line[n - 2] == 0x2e && is_ascii_digit(line[n - 1]))
    }
}

/// The value encoded by a parseable tail, as a tenths-scaled integer.
pub open spec fn tail_value(line: Seq<u8>) -> int {
    let n = line.len() as int;
    if line[n - 4] == 0x3b {
        10 * digit_val(line[n - 3]) + digit_val(line[n - 1])
    } else if line[n - 5] == 0x3b && line[n - 4] == 0x2d {
        -(10 * digit_val(line[n - 3]) + digit_val(line[n - 1]))
    } else if line[n - 5] == 0x3b {
        100 * digit_val(line[n - 4]) + 10 * digit_val(line[n - 3]) + digit_val(line[n - 1])
    } else {
        -(100 * digit_val(line[n - 4]) + 10 * digit_val(line[n - 3]) + digit_val(line[n - 1]))
    }
}

/// End-anchored decoder: reads the last bytes of the line at fixed
/// offsets and selects among the two-digit, three-digit, negated and
/// non-negated interpretations with conditional moves instead of
/// data-dependent branches.
pub fn parse_temperature(line: &[u8]) -> (r: i32)
    requires
        has_parseable_tail(line@),
    ensures
        r as int == tail_value(line@),
{
    let n = line.len();
    let c0 = line[n - 1];
    let c1 = line[n - 3];
    let c2 = line[n - 4];
    let c3 = line[n - 5];

    let is_two_digits = (c2 == 0x3b) || (c2 == 0x2d);
    let is_negative = (c3 == 0x2d) || (c2 == 0x2d);

    let mut hundreds = digit_to_i32(c2);
    cmovnz_i32(&mut hundreds, 0, is_two_digits);

    let mut result = 10 * (10 * hundreds + digit_to_i32(c1)) + digit_to_i32(c0);
    let negative_result = -result;
    cmovnz_i32(&mut result, negative_result, is_negative);

    result
}

} // verus!
