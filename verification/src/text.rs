//! Byte-level lexing of a recorded terminal session: lines, words, the first
//! space of a line, and decimal numbers.

use vstd::prelude::*;
use vstd::slice::slice_subrange;

verus! {

/// Line feed, which ends a line.
pub const LF: u8 = 0x0a;

/// Carriage return, dropped where it stands right before a line feed.
pub const CR: u8 = 0x0d;

/// The space that parts the two fields of an entry line.
pub const SPACE: u8 = 0x20;

/// The sign that may stand before the digits of a number.
pub const PLUS: u8 = 0x2b;

/// The bytes that separate the words of a command line: space, tab, line
/// feed, vertical tab, form feed and carriage return.
pub open spec fn is_space(b: u8) -> bool {
    b == 0x20 || (0x09 <= b && b <= 0x0d)
}

/// Tells whether `b` separates words.
pub fn is_space_byte(b: u8) -> (r: bool)
    ensures
        r == is_space(b),
{
    b == 0x20 || (0x09 <= b && b <= 0x0d)
}

/// Tells whether two byte strings are the same.
pub fn bytes_equal(a: &[u8], b: &[u8]) -> (same: bool)
    ensures
        same == (a@ == b@),
{
    if a.len() != b.len() {
        return false;
    }
    let mut i: usize = 0;
    while i < a.len()
        invariant
            a@.len() == b@.len(),
            i <= a@.len(),
            forall|k: int| 0 <= k < i ==> a@[k] == b@[k],
        decreases a@.len() - i,
    {
        if a[i] != b[i] {
            return false;
        }
        i = i + 1;
    }
    assert(a@ =~= b@);
    true
}

/// The position of the first `b` in `s` at or after `from`; the length of `s`
/// where there is none.
pub open spec fn index_of(s: Seq<u8>, b: u8, from: int) -> int
    decreases s.len() - from,
{
    if 0 <= from < s.len() && s[from] != b {
        index_of(s, b, from + 1)
    } else if from < s.len() {
        from
    } else {
        s.len() as int
    }
}

/// Where `index_of` points: at the first `b` from `from` on, or at the end.
pub proof fn lemma_index_of(s: Seq<u8>, b: u8, from: int)
    requires
        0 <= from <= s.len(),
    ensures
        from <= index_of(s, b, from) <= s.len(),
        index_of(s, b, from) < s.len() ==> s[index_of(s, b, from)] == b,
        forall|k: int| from <= k < index_of(s, b, from) ==> s[k] != b,
    decreases s.len() - from,
{
    if from < s.len() && s[from] != b {
        lemma_index_of(s, b, from + 1);
    }
}

/// Finds the first `b` in `s` at or after `from`.
pub fn find_byte(s: &[u8], b: u8, from: usize) -> (at: usize)
    requires
        from <= s@.len(),
    ensures
        at == index_of(s@, b, from as int),
        from <= at <= s@.len(),
{
    let mut i: usize = from;
    while i < s.len() && s[i] != b
        invariant
            from <= i <= s@.len(),
            index_of(s@, b, from as int) == index_of(s@, b, i as int),
        decreases s@.len() - i,
    {
        i = i + 1;
    }
    i
}

/// The end of the run of bytes that starts at `from` and consists of
/// separators (`spaces` set) or of other bytes (`spaces` not set).
pub open spec fn run_end(s: Seq<u8>, from: int, spaces: bool) -> int
    decreases s.len() - from,
{
    if 0 <= from < s.len() && is_space(s[from]) == spaces {
        run_end(s, from + 1, spaces)
    } else {
        from
    }
}

/// Where `run_end` points: behind the last byte of the run.
pub proof fn lemma_run_end(s: Seq<u8>, from: int, spaces: bool)
    requires
        0 <= from <= s.len(),
    ensures
        from <= run_end(s, from, spaces) <= s.len(),
        run_end(s, from, spaces) < s.len() ==> is_space(s[run_end(s, from, spaces)]) != spaces,
        forall|k: int| from <= k < run_end(s, from, spaces) ==> is_space(s[k]) == spaces,
    decreases s.len() - from,
{
    if from < s.len() && is_space(s[from]) == spaces {
        lemma_run_end(s, from + 1, spaces);
    }
}

/// Finds the end of the run that starts at `from`.
pub fn scan_run(s: &[u8], from: usize, spaces: bool) -> (end: usize)
    requires
        from <= s@.len(),
    ensures
        end == run_end(s@, from as int, spaces),
        from <= end <= s@.len(),
{
    let mut i: usize = from;
    while i < s.len() && is_space_byte(s[i]) == spaces
        invariant
            from <= i <= s@.len(),
            run_end(s@, from as int, spaces) == run_end(s@, i as int, spaces),
        decreases s@.len() - i,
    {
        i = i + 1;
    }
    i
}

/// The words of `s` that start at or after `from`: the maximal runs of bytes
/// that are no separators, in their order.
pub open spec fn words_from(s: Seq<u8>, from: int) -> Seq<Seq<u8>>
    decreases s.len() - from,
{
    let start = run_end(s, from, true);
    let end = run_end(s, start, false);
    if from <= start < end <= s.len() {
        seq![s.subrange(start, end)] + words_from(s, end)
    } else {
        Seq::empty()
    }
}

/// The words of `s`.
pub open spec fn words(s: Seq<u8>) -> Seq<Seq<u8>> {
    words_from(s, 0)
}

/// The views of a list of byte slices.
pub open spec fn slices_view(v: Seq<&[u8]>) -> Seq<Seq<u8>> {
    Seq::new(v.len(), |i: int| v[i]@)
}

/// Splits a line into its words.
pub fn split_words<'a>(line: &'a [u8]) -> (found: Vec<&'a [u8]>)
    ensures
        slices_view(found@) == words(line@),
{
    let mut found: Vec<&'a [u8]> = Vec::new();
    let mut at: usize = 0;
    loop
        invariant
            at <= line@.len(),
            words(line@) == slices_view(found@) + words_from(line@, at as int),
        ensures
            slices_view(found@) == words(line@),
        decreases line@.len() - at,
    {
        let start = scan_run(line, at, true);
        let end = scan_run(line, start, false);
        if start >= end {
            break;
        }
        let ghost before = slices_view(found@);
        found.push(slice_subrange(line, start, end));
        proof {
            let word = line@.subrange(start as int, end as int);
            let rest = words_from(line@, end as int);
            assert(before + (seq![word] + rest) =~= before + seq![word] + rest);
        }
        at = end;
    }
    found
}

/// The decimal digits, `0` to `9`.
pub open spec fn is_digit(b: u8) -> bool {
    0x30 <= b && b <= 0x39
}

/// What a byte counts as a decimal digit; nothing where it is none.
pub open spec fn digit_value(b: u8) -> nat {
    if is_digit(b) {
        (b - 0x30) as nat
    } else {
        0
    }
}

/// The number that a string of digits denotes in base ten.
pub open spec fn decimal_value(s: Seq<u8>) -> nat
    decreases s.len(),
{
    if s.len() == 0 {
        0
    } else {
        decimal_value(s.drop_last()) * 10 + digit_value(s.last())
    }
}

/// The digits of a size field: the field without a leading plus sign.
pub open spec fn size_digits(field: Seq<u8>) -> Seq<u8> {
    if field.len() > 0 && field[0] == PLUS {
        field.drop_first()
    } else {
        field
    }
}

/// The size that a field denotes: an optional plus sign, then one or more
/// decimal digits, whose value fits a machine word. Any other field denotes
/// none.
pub open spec fn parse_size(field: Seq<u8>) -> Option<nat> {
    let digits = size_digits(field);
    if digits.len() > 0 && (forall|i: int| 0 <= i < digits.len() ==> is_digit(digits[i]))
        && decimal_value(digits) <= usize::MAX {
        Some(decimal_value(digits))
    } else {
        None
    }
}

/// A string of digits denotes at least what any of its prefixes denotes.
pub proof fn lemma_decimal_value_prefix(s: Seq<u8>, k: int)
    requires
        0 <= k <= s.len(),
    ensures
        decimal_value(s.take(k)) <= decimal_value(s),
    decreases s.len(),
{
    if k < s.len() {
        lemma_decimal_value_prefix(s.drop_last(), k);
        assert(s.drop_last().take(k) =~= s.take(k));
    } else {
        assert(s.take(k) =~= s);
    }
}

/// Reads a size field.
pub fn parse_usize(field: &[u8]) -> (size: Option<usize>)
    ensures
        match size {
            Some(n) => parse_size(field@) == Some(n as nat),
            None => parse_size(field@) is None,
        },
{
    let start: usize = if field.len() > 0 && field[0] == PLUS {
        1
    } else {
        0
    };
    let ghost digits = size_digits(field@);
    let mut value: usize = 0;
    let mut i: usize = start;
    while i < field.len()
        invariant
            start <= i <= field@.len(),
            digits == size_digits(field@),
            digits == field@.skip(start as int),
            forall|k: int| 0 <= k < i - start ==> is_digit(digits[k]),
            value == decimal_value(digits.take(i - start)),
        decreases field@.len() - i,
    {
        let b = field[i];
        if b < 0x30 || b > 0x39 {
            assert(!is_digit(digits[i - start]));
            return None;
        }
        let digit: usize = (b - 0x30) as usize;
        proof {
            assert(digits.take(i + 1 - start).drop_last() =~= digits.take(i - start));
            lemma_decimal_value_prefix(digits, i + 1 - start);
        }
        if value > (usize::MAX - digit) / 10 {
            return None;
        }
        value = value * 10 + digit;
        i = i + 1;
    }
    assert(digits.take(i - start) =~= digits);
    if i == start {
        None
    } else {
        Some(value)
    }
}

/// A line without the carriage return that may end it.
pub open spec fn strip_cr(line: Seq<u8>) -> Seq<u8> {
    if line.len() > 0 && line.last() == CR {
        line.drop_last()
    } else {
        line
    }
}

/// The line that starts at `from`. It ends before the next line feed, or at
/// the end of `s`; a carriage return right before the line feed belongs to the
/// line ending and not to the line.
pub open spec fn line_at(s: Seq<u8>, from: int) -> Seq<u8> {
    let end = index_of(s, LF, from);
    if end < s.len() {
        strip_cr(s.subrange(from, end))
    } else {
        s.subrange(from, s.len() as int)
    }
}

/// Where the line after the one at `from` starts: behind the next line feed,
/// or at the end of `s`.
pub open spec fn next_line_start(s: Seq<u8>, from: int) -> int {
    let end = index_of(s, LF, from);
    if end < s.len() {
        end + 1
    } else {
        s.len() as int
    }
}

/// The lines of `s` that start at or after `from`.
pub open spec fn lines_from(s: Seq<u8>, from: int) -> Seq<Seq<u8>>
    decreases s.len() - from,
{
    if 0 <= from < s.len() {
        let next = next_line_start(s, from);
        seq![line_at(s, from)] + if from < next {
            lines_from(s, next)
        } else {
            Seq::empty()
        }
    } else {
        Seq::empty()
    }
}

/// The lines of `s`. A line feed at the very end starts no further line.
pub open spec fn lines(s: Seq<u8>) -> Seq<Seq<u8>> {
    lines_from(s, 0)
}

/// Cuts the line that starts at `from` out of `s`, and tells where the next
/// one starts.
pub fn next_line<'a>(s: &'a [u8], from: usize) -> (cut: (&'a [u8], usize))
    requires
        from < s@.len(),
    ensures
        cut.0@ == line_at(s@, from as int),
        cut.1 == next_line_start(s@, from as int),
        from < cut.1 <= s@.len(),
{
    let end = find_byte(s, LF, from);
    if end < s.len() {
        if end > from && s[end - 1] == CR {
            (slice_subrange(s, from, end - 1), end + 1)
        } else {
            (slice_subrange(s, from, end), end + 1)
        }
    } else {
        (slice_subrange(s, from, end), end)
    }
}

} // verus!
