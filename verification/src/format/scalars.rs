//! The lexical layer of the manifest format: blanks, punctuation, names, strings,
//! integers and timestamps.
//!
//! Every reader is a function of the whole text and a position. It skips blanks,
//! reads one item, and gives the item together with the position behind it. For
//! every writer there is a lemma that the reader gives back what was written.

use crate::manifest::Timestamp;
use crate::text::{char_of_code, chars_of, string_of};
use vstd::prelude::*;

verus! {

/// A blank: space, tab, line feed or carriage return.
pub open spec fn is_space(c: char) -> bool {
    c == ' ' || c == '\t' || c == '\n' || c == '\r'
}

/// The first position at or after `i` that holds no blank.
pub open spec fn skip_spaces(s: Seq<char>, i: int) -> int
    decreases s.len() - i,
{
    if 0 <= i < s.len() && is_space(s[i]) {
        skip_spaces(s, i + 1)
    } else {
        i
    }
}

/// The text `part` stands in `s` at position `i`.
pub open spec fn stands_at(s: Seq<char>, i: int, part: Seq<char>) -> bool {
    0 <= i && i + part.len() <= s.len() && s.subrange(i, i + part.len()) == part
}

/// Reads one character of punctuation after any blanks.
pub open spec fn token(s: Seq<char>, i: int, c: char) -> Option<int> {
    let j = skip_spaces(s, i);
    if 0 <= j < s.len() && s[j] == c {
        Some(j + 1)
    } else {
        None
    }
}

/// A name between double quotes, as it is written before a colon.
pub open spec fn quoted_name(name: Seq<char>) -> Seq<char> {
    seq!['"'] + (name + seq!['"'])
}

/// Reads the given name, between double quotes, after any blanks.
pub open spec fn name_token(s: Seq<char>, i: int, name: Seq<char>) -> Option<int> {
    let j = skip_spaces(s, i);
    if stands_at(s, j, quoted_name(name)) {
        Some(j + name.len() + 2)
    } else {
        None
    }
}

/// A text stands at a position exactly when its two halves stand one behind the
/// other.
pub proof fn lemma_stands_at_concat(s: Seq<char>, i: int, a: Seq<char>, b: Seq<char>)
    ensures
        stands_at(s, i, a + b) <==> stands_at(s, i, a) && stands_at(s, i + a.len(), b),
{
    if stands_at(s, i, a + b) {
        assert(s.subrange(i, i + a.len()) =~= (a + b).subrange(0, a.len() as int));
        assert((a + b).subrange(0, a.len() as int) =~= a);
        assert(s.subrange(i + a.len(), i + a.len() + b.len()) =~= (a + b).subrange(
            a.len() as int,
            (a + b).len() as int,
        ));
        assert((a + b).subrange(a.len() as int, (a + b).len() as int) =~= b);
    }
    if stands_at(s, i, a) && stands_at(s, i + a.len(), b) {
        assert(s.subrange(i, i + (a + b).len()) =~= s.subrange(i, i + a.len()) + s.subrange(
            i + a.len(),
            i + a.len() + b.len(),
        ));
    }
}

/// Where one character stands, the token for it is read and nothing is skipped.
pub proof fn lemma_token(s: Seq<char>, i: int, c: char, rest: Seq<char>)
    requires
        stands_at(s, i, seq![c] + rest),
        !is_space(c),
    ensures
        token(s, i, c) == Some(i + 1),
        stands_at(s, i + 1, rest),
{
    lemma_stands_at_concat(s, i, seq![c], rest);
    assert(s.subrange(i, i + 1)[0] == c);
}

/// Where a quoted name stands, its token is read and nothing is skipped.
pub proof fn lemma_name_token(s: Seq<char>, i: int, name: Seq<char>, rest: Seq<char>)
    requires
        stands_at(s, i, quoted_name(name) + rest),
    ensures
        name_token(s, i, name) == Some(i + name.len() + 2),
        stands_at(s, i + name.len() + 2, rest),
{
    lemma_stands_at_concat(s, i, quoted_name(name), rest);
    assert(s.subrange(i, i + quoted_name(name).len())[0] == '"');
}

/// The value of a hexadecimal digit.
pub open spec fn hex_value(c: char) -> Option<int> {
    if '0' <= c <= '9' {
        Some(c as int - '0' as int)
    } else if 'a' <= c <= 'f' {
        Some(c as int - 'a' as int + 10)
    } else if 'A' <= c <= 'F' {
        Some(c as int - 'A' as int + 10)
    } else {
        None
    }
}

/// The hexadecimal digit, in lower case, of a value below sixteen.
pub open spec fn hex_char(value: int) -> char {
    if value < 10 {
        (value + '0' as int) as char
    } else {
        (value - 10 + 'a' as int) as char
    }
}

/// Whether a number is the code of a character: within range and no surrogate.
pub open spec fn is_char_code(code: int) -> bool {
    0 <= code < 0xD800 || 0xE000 <= code <= 0x10FFFF
}

/// The code that four hexadecimal digits at position `i` write, if they are there.
pub open spec fn hex4_at(s: Seq<char>, i: int) -> Option<int> {
    if 0 <= i && i + 4 <= s.len() && hex_value(s[i]) is Some && hex_value(s[i + 1]) is Some
        && hex_value(s[i + 2]) is Some && hex_value(s[i + 3]) is Some {
        Some(
            4096 * hex_value(s[i])->0 + 256 * hex_value(s[i + 1])->0 + 16 * hex_value(
                s[i + 2],
            )->0 + hex_value(s[i + 3])->0,
        )
    } else {
        None
    }
}

/// The character that the escape sequence at position `i` stands for, and the
/// position behind the sequence. Position `i` holds the backslash.
pub open spec fn escape_at(s: Seq<char>, i: int) -> Option<(char, int)> {
    if 0 <= i && i + 1 < s.len() {
        let e = s[i + 1];
        if e == '"' {
            Some(('"', i + 2))
        } else if e == '\\' {
            Some(('\\', i + 2))
        } else if e == '/' {
            Some(('/', i + 2))
        } else if e == 'b' {
            Some(('\u{8}', i + 2))
        } else if e == 'f' {
            Some(('\u{c}', i + 2))
        } else if e == 'n' {
            Some(('\n', i + 2))
        } else if e == 'r' {
            Some(('\r', i + 2))
        } else if e == 't' {
            Some(('\t', i + 2))
        } else if e == 'u' {
            match hex4_at(s, i + 2) {
                Some(code) => if is_char_code(code) {
                    Some((code as char, i + 6))
                } else {
                    None
                },
                None => None,
            }
        } else {
            None
        }
    } else {
        None
    }
}

/// A text put in front of what a reader gave.
pub open spec fn prepend(front: Seq<char>, read: Option<(Seq<char>, int)>) -> Option<
    (Seq<char>, int),
> {
    match read {
        Some((text, end)) => Some((front + text, end)),
        None => None,
    }
}

/// Reads the inside of a string from position `i` up to its closing quote.
/// Control characters must be written as escape sequences.
pub open spec fn string_body(s: Seq<char>, i: int) -> Option<(Seq<char>, int)>
    decreases s.len() - i,
{
    if i < 0 || i >= s.len() {
        None
    } else if s[i] == '"' {
        Some((Seq::empty(), i + 1))
    } else if s[i] == '\\' {
        match escape_at(s, i) {
            Some((c, j)) => if j > i {
                prepend(seq![c], string_body(s, j))
            } else {
                None
            },
            None => None,
        }
    } else if (s[i] as u32) < 0x20 {
        None
    } else {
        prepend(seq![s[i]], string_body(s, i + 1))
    }
}

/// Reads a string between double quotes, after any blanks.
pub open spec fn read_string(s: Seq<char>, i: int) -> Option<(Seq<char>, int)> {
    match token(s, i, '"') {
        Some(j) => string_body(s, j),
        None => None,
    }
}

/// How one character is written inside a string.
pub open spec fn escaped(c: char) -> Seq<char> {
    if c == '"' {
        seq!['\\', '"']
    } else if c == '\\' {
        seq!['\\', '\\']
    } else if c == '\u{8}' {
        seq!['\\', 'b']
    } else if c == '\u{c}' {
        seq!['\\', 'f']
    } else if c == '\n' {
        seq!['\\', 'n']
    } else if c == '\r' {
        seq!['\\', 'r']
    } else if c == '\t' {
        seq!['\\', 't']
    } else if (c as u32) < 0x20 {
        seq!['\\', 'u', '0', '0', hex_char((c as int) / 16), hex_char((c as int) % 16)]
    } else {
        seq![c]
    }
}

/// How a text is written inside a string.
pub open spec fn escaped_text(text: Seq<char>) -> Seq<char>
    decreases text.len(),
{
    if text.len() == 0 {
        Seq::empty()
    } else {
        escaped(text[0]) + escaped_text(text.drop_first())
    }
}

/// How a text is written as a string: escaped, between double quotes.
pub open spec fn quoted(text: Seq<char>) -> Seq<char> {
    seq!['"'] + (escaped_text(text) + seq!['"'])
}

/// The escape sequence of a character is read back as that character.
proof fn lemma_escaped(s: Seq<char>, i: int, c: char)
    requires
        stands_at(s, i, escaped(c)),
    ensures
        string_body(s, i) == prepend(seq![c], string_body(s, i + escaped(c).len())),
{
    let e = escaped(c);
    assert forall|k: int| 0 <= k < e.len() implies s[i + k] == #[trigger] e[k] by {
        assert(s.subrange(i, i + e.len())[k] == e[k]);
    }
    if c == '"' || c == '\\' || c == '\u{8}' || c == '\u{c}' || c == '\n' || c == '\r' || c
        == '\t' {
        assert(s[i] == e[0]);
        assert(s[i + 1] == e[1]);
    } else if (c as u32) < 0x20 {
        let high = (c as int) / 16;
        let low = (c as int) % 16;
        assert(s[i] == e[0]);
        assert(s[i + 1] == e[1]);
        assert(s[i + 2] == e[2]);
        assert(s[i + 3] == e[3]);
        assert(s[i + 4] == e[4]);
        assert(s[i + 5] == e[5]);
        assert(0 <= high < 2);
        assert(hex_value(hex_char(high)) == Some(high));
        assert(hex_value(hex_char(low)) == Some(low));
        assert(hex4_at(s, i + 2) == Some(c as int));
        assert((c as int) as char == c);
    } else {
        assert(s[i] == e[0]);
    }
}

/// A written text and its closing quote are read back as the text.
pub proof fn lemma_string_body(s: Seq<char>, i: int, text: Seq<char>)
    requires
        stands_at(s, i, escaped_text(text) + seq!['"']),
    ensures
        string_body(s, i) == Some((text, i + escaped_text(text).len() + 1)),
    decreases text.len(),
{
    if text.len() == 0 {
        assert(s.subrange(i, i + 1)[0] == '"');
    } else {
        let head = escaped(text[0]);
        let tail = escaped_text(text.drop_first());
        assert(escaped_text(text) + seq!['"'] =~= head + (tail + seq!['"']));
        lemma_stands_at_concat(s, i, head, tail + seq!['"']);
        lemma_escaped(s, i, text[0]);
        lemma_string_body(s, i + head.len(), text.drop_first());
        assert(seq![text[0]] + text.drop_first() =~= text);
    }
}

/// A written string is read back as its text, and nothing is skipped.
pub proof fn lemma_read_string(s: Seq<char>, i: int, text: Seq<char>, rest: Seq<char>)
    requires
        stands_at(s, i, quoted(text) + rest),
    ensures
        read_string(s, i) == Some((text, i + quoted(text).len())),
        stands_at(s, i + quoted(text).len(), rest),
{
    lemma_stands_at_concat(s, i, quoted(text), rest);
    lemma_token(s, i, '"', escaped_text(text) + seq!['"']);
    lemma_string_body(s, i + 1, text);
}

/// A decimal digit.
pub open spec fn is_digit(c: char) -> bool {
    '0' <= c <= '9'
}

/// The value of a decimal digit.
pub open spec fn digit_value(c: char) -> int {
    c as int - '0' as int
}

/// The decimal digit of a value below ten.
pub open spec fn digit_char(value: int) -> char {
    (value + '0' as int) as char
}

/// The position behind the run of digits that starts at `i`.
pub open spec fn digits_end(s: Seq<char>, i: int) -> int
    decreases s.len() - i,
{
    if 0 <= i < s.len() && is_digit(s[i]) {
        digits_end(s, i + 1)
    } else {
        i
    }
}

/// The number that the digits from `i` up to `j` write in decimal.
pub open spec fn digits_value(s: Seq<char>, i: int, j: int) -> int
    decreases j - i,
{
    if j <= i {
        0
    } else {
        digits_value(s, i, j - 1) * 10 + digit_value(s[j - 1])
    }
}

/// Reads an unsigned integer that fits 64 bits, after any blanks.
pub open spec fn read_u64(s: Seq<char>, i: int) -> Option<(u64, int)> {
    let start = skip_spaces(s, i);
    let end = digits_end(s, start);
    if start < end && digits_value(s, start, end) <= u64::MAX {
        Some((digits_value(s, start, end) as u64, end))
    } else {
        None
    }
}

/// A power of ten.
pub open spec fn pow10(exponent: nat) -> nat
    decreases exponent,
{
    if exponent == 0 {
        1
    } else {
        10 * pow10((exponent - 1) as nat)
    }
}

/// Reads a timestamp, after any blanks: the seconds, and behind a point up to nine
/// digits of a fraction of a second. Without a point the fraction is zero.
pub open spec fn read_timestamp(s: Seq<char>, i: int) -> Option<(Timestamp, int)> {
    match read_u64(s, i) {
        Some((secs, j)) => if 0 <= j < s.len() && s[j] == '.' {
            let end = digits_end(s, j + 1);
            let count = end - (j + 1);
            if 1 <= count <= 9 {
                Some(
                    (
                        Timestamp {
                            secs,
                            nanos: (digits_value(s, j + 1, end) * pow10((9 - count) as nat)) as u32,
                        },
                        end,
                    ),
                )
            } else {
                None
            }
        } else {
            Some((Timestamp { secs, nanos: 0 }, j))
        },
        None => None,
    }
}

/// A number in decimal, without leading zeros.
pub open spec fn decimal(n: nat) -> Seq<char>
    decreases n,
{
    if n < 10 {
        seq![digit_char(n as int)]
    } else {
        decimal(n / 10).push(digit_char((n % 10) as int))
    }
}

/// The last `width` decimal digits of a number, with leading zeros.
pub open spec fn fixed_digits(n: nat, width: nat) -> Seq<char>
    decreases width,
{
    if width == 0 {
        Seq::empty()
    } else {
        fixed_digits(n / 10, (width - 1) as nat).push(digit_char((n % 10) as int))
    }
}

/// How a timestamp is written: the seconds, a point, and nine digits of nanoseconds.
pub open spec fn timestamp_text(t: Timestamp) -> Seq<char> {
    decimal(t.secs as nat) + (seq!['.'] + fixed_digits(t.nanos as nat, 9))
}

/// The run of digits from `i` ends within the text, holds digits only, and stops
/// before a character that is no digit.
pub proof fn lemma_digits_end(s: Seq<char>, i: int)
    requires
        0 <= i <= s.len(),
    ensures
        i <= digits_end(s, i) <= s.len(),
        forall|k: int| i <= k < digits_end(s, i) ==> is_digit(#[trigger] s[k]),
        digits_end(s, i) < s.len() ==> !is_digit(s[digits_end(s, i)]),
    decreases s.len() - i,
{
    if i < s.len() && is_digit(s[i]) {
        lemma_digits_end(s, i + 1);
    }
}

/// A run of digits that stops at `end` is the run that `digits_end` finds.
pub proof fn lemma_digits_run(s: Seq<char>, i: int, end: int)
    requires
        0 <= i <= end <= s.len(),
        forall|k: int| i <= k < end ==> is_digit(#[trigger] s[k]),
        end < s.len() ==> !is_digit(s[end]),
    ensures
        digits_end(s, i) == end,
    decreases end - i,
{
    if i < end {
        assert(is_digit(s[i]));
        lemma_digits_run(s, i + 1, end);
    }
}

/// The value of a run of digits does not depend on the text around it.
pub proof fn lemma_digits_value_local(s: Seq<char>, i: int, j: int, t: Seq<char>, k: int)
    requires
        0 <= i <= j <= s.len(),
        0 <= k,
        k + (j - i) <= t.len(),
        s.subrange(i, j) == t.subrange(k, k + (j - i)),
    ensures
        digits_value(s, i, j) == digits_value(t, k, k + (j - i)),
    decreases j - i,
{
    if i < j {
        assert(s.subrange(i, j - 1) =~= s.subrange(i, j).subrange(0, j - 1 - i));
        assert(t.subrange(k, k + (j - 1 - i)) =~= t.subrange(k, k + (j - i)).subrange(
            0,
            j - 1 - i,
        ));
        lemma_digits_value_local(s, i, j - 1, t, k);
        assert(s[j - 1] == s.subrange(i, j)[j - 1 - i]);
        assert(t[k + (j - i) - 1] == t.subrange(k, k + (j - i))[j - 1 - i]);
    }
}

/// A number written in decimal consists of digits that write the number.
pub proof fn lemma_decimal(n: nat)
    ensures
        decimal(n).len() >= 1,
        forall|k: int| 0 <= k < decimal(n).len() ==> is_digit(#[trigger] decimal(n)[k]),
        digits_value(decimal(n), 0, decimal(n).len() as int) == n,
    decreases n,
{
    let text = decimal(n);
    if n < 10 {
        assert(digits_value(text, 0, 0) == 0);
        assert(digits_value(text, 0, 1) == digits_value(text, 0, 0) * 10 + digit_value(text[0]));
    } else {
        let front = decimal(n / 10);
        lemma_decimal(n / 10);
        assert(text.subrange(0, front.len() as int) =~= front);
        assert(front.subrange(0, front.len() as int) =~= front);
        lemma_digits_value_local(text, 0, front.len() as int, front, 0);
        assert(text[text.len() - 1] == digit_char((n % 10) as int));
    }
}

/// Digits with leading zeros have the given width and write the number, as far as
/// the width reaches.
pub proof fn lemma_fixed_digits(n: nat, width: nat)
    ensures
        fixed_digits(n, width).len() == width,
        forall|k: int|
            0 <= k < fixed_digits(n, width).len() ==> is_digit(
                #[trigger] fixed_digits(n, width)[k],
            ),
        digits_value(fixed_digits(n, width), 0, width as int) == n % pow10(width),
        pow10(width) > 0,
    decreases width,
{
    let text = fixed_digits(n, width);
    if width > 0 {
        let front = fixed_digits(n / 10, (width - 1) as nat);
        lemma_fixed_digits(n / 10, (width - 1) as nat);
        assert(text.subrange(0, front.len() as int) =~= front);
        assert(front.subrange(0, front.len() as int) =~= front);
        lemma_digits_value_local(text, 0, front.len() as int, front, 0);
        assert(text[text.len() - 1] == digit_char((n % 10) as int));
        let p = pow10((width - 1) as nat);
        assert(((n / 10) % p) * 10 + n % 10 == n % (10 * p)) by (nonlinear_arith)
            requires
                p > 0,
        ;
    }
}

/// A written number is read back, provided that no digit follows it.
pub proof fn lemma_read_u64(s: Seq<char>, i: int, n: u64, rest: Seq<char>)
    requires
        stands_at(s, i, decimal(n as nat) + rest),
        rest.len() > 0,
        !is_digit(rest[0]),
    ensures
        read_u64(s, i) == Some((n, i + decimal(n as nat).len())),
        stands_at(s, i + decimal(n as nat).len(), rest),
{
    let text = decimal(n as nat);
    let end = i + text.len();
    lemma_decimal(n as nat);
    lemma_stands_at_concat(s, i, text, rest);
    assert forall|k: int| i <= k < end implies is_digit(#[trigger] s[k]) by {
        assert(s.subrange(i, end)[k - i] == text[k - i]);
    }
    assert(s[end] == rest[0]) by {
        assert(s.subrange(end, end + rest.len())[0] == rest[0]);
    }
    assert(is_digit(s[i]));
    lemma_digits_run(s, i, end);
    assert(text.subrange(0, text.len() as int) =~= text);
    lemma_digits_value_local(s, i, end, text, 0);
}

/// A written timestamp is read back, provided that no digit follows it and its
/// nanoseconds stay below one second.
pub proof fn lemma_read_timestamp(s: Seq<char>, i: int, t: Timestamp, rest: Seq<char>)
    requires
        stands_at(s, i, timestamp_text(t) + rest),
        t.is_valid(),
        rest.len() > 0,
        !is_digit(rest[0]),
    ensures
        read_timestamp(s, i) == Some((t, i + timestamp_text(t).len())),
        stands_at(s, i + timestamp_text(t).len(), rest),
{
    let whole = decimal(t.secs as nat);
    let fraction = fixed_digits(t.nanos as nat, 9);
    lemma_stands_at_concat(s, i, timestamp_text(t), rest);
    lemma_stands_at_concat(s, i, whole, seq!['.'] + fraction);
    lemma_read_u64(s, i, t.secs, seq!['.'] + fraction);
    let point = i + whole.len();
    lemma_stands_at_concat(s, point, seq!['.'], fraction);
    assert(s[point] == '.') by {
        assert(s.subrange(point, point + 1)[0] == '.');
    }
    let start = point + 1;
    let end = start + 9;
    lemma_fixed_digits(t.nanos as nat, 9);
    assert forall|k: int| start <= k < end implies is_digit(#[trigger] s[k]) by {
        assert(s.subrange(start, end)[k - start] == fraction[k - start]);
    }
    assert(s[end] == rest[0]) by {
        assert(s.subrange(end, end + rest.len())[0] == rest[0]);
    }
    lemma_digits_run(s, start, end);
    assert(fraction.subrange(0, 9) =~= fraction);
    lemma_digits_value_local(s, start, end, fraction, 0);
    assert(pow10(9) == 1_000_000_000) by {
        reveal_with_fuel(pow10, 10);
    }
    let value = digits_value(s, start, end);
    let unit = pow10(0);
    assert(unit == 1);
    assert(value == t.nanos);
    assert(value * unit == value) by (nonlinear_arith)
        requires
            unit == 1,
    ;
    assert(read_u64(s, i) == Some((t.secs, point)));
    assert(digits_end(s, point + 1) == end);
    assert(end - (point + 1) == 9);
    assert(timestamp_text(t).len() == whole.len() + 10);
}

/// A position that a reader gave, as a mathematical integer.
pub open spec fn position_read(read: Option<usize>) -> Option<int> {
    match read {
        Some(end) => Some(end as int),
        None => None,
    }
}

/// A text and a position that a reader gave, as mathematical values.
pub open spec fn text_read(read: Option<(String, usize)>) -> Option<(Seq<char>, int)> {
    match read {
        Some((text, end)) => Some((text@, end as int)),
        None => None,
    }
}

/// A number and a position that a reader gave, as mathematical values.
pub open spec fn u64_read(read: Option<(u64, usize)>) -> Option<(u64, int)> {
    match read {
        Some((value, end)) => Some((value, end as int)),
        None => None,
    }
}

/// A timestamp and a position that a reader gave, as mathematical values.
pub open spec fn timestamp_read(read: Option<(Timestamp, usize)>) -> Option<(Timestamp, int)> {
    match read {
        Some((value, end)) => Some((value, end as int)),
        None => None,
    }
}

/// Whether a character is a blank.
fn is_blank(c: char) -> (blank: bool)
    ensures
        blank == is_space(c),
{
    c == ' ' || c == '\t' || c == '\n' || c == '\r'
}

/// The first position at or after `i` that holds no blank.
pub fn skip_blanks(s: &Vec<char>, i: usize) -> (j: usize)
    requires
        i <= s@.len(),
    ensures
        j == skip_spaces(s@, i as int),
        i <= j <= s@.len(),
{
    let mut j: usize = i;
    while j < s.len() && is_blank(s[j])
        invariant
            i <= j <= s@.len(),
            skip_spaces(s@, i as int) == skip_spaces(s@, j as int),
        decreases s@.len() - j,
    {
        j = j + 1;
    }
    j
}

/// Reads one character of punctuation after any blanks.
pub fn take_token(s: &Vec<char>, i: usize, c: char) -> (next: Option<usize>)
    requires
        i <= s@.len(),
    ensures
        position_read(next) == token(s@, i as int, c),
        next matches Some(end) ==> i < end <= s@.len(),
{
    let j = skip_blanks(s, i);
    if j < s.len() && s[j] == c {
        Some(j + 1)
    } else {
        None
    }
}

/// Whether the characters of `part` stand in `s` at position `i`.
fn matches_at(s: &Vec<char>, i: usize, part: &Vec<char>) -> (found: bool)
    requires
        i <= s@.len(),
    ensures
        found == stands_at(s@, i as int, part@),
        s@.len() <= usize::MAX,
{
    let length = s.len();
    if part.len() > length - i {
        return false;
    }
    let mut k: usize = 0;
    while k < part.len()
        invariant
            i + part@.len() <= s@.len(),
            s@.len() == length,
            k <= part@.len(),
            s@.subrange(i as int, i + k) == part@.take(k as int),
        decreases part@.len() - k,
    {
        if s[i + k] != part[k] {
            assert(!stands_at(s@, i as int, part@)) by {
                if stands_at(s@, i as int, part@) {
                    assert(s@.subrange(i as int, i + part@.len())[k as int] == part@[k as int]);
                }
            }
            return false;
        }
        assert(s@.subrange(i as int, i + k + 1) =~= s@.subrange(i as int, i + k).push(
            s@[i + k],
        ));
        assert(part@.take(k + 1) =~= part@.take(k as int).push(part@[k as int]));
        k = k + 1;
    }
    assert(part@.take(k as int) =~= part@);
    true
}

/// Reads the given name, between double quotes, after any blanks.
pub fn take_name(s: &Vec<char>, i: usize, name: &str) -> (next: Option<usize>)
    requires
        i <= s@.len(),
    ensures
        position_read(next) == name_token(s@, i as int, name@),
        next matches Some(end) ==> i < end <= s@.len(),
{
    let j = skip_blanks(s, i);
    let mut expected: Vec<char> = Vec::new();
    expected.push('"');
    let letters = chars_of(name);
    let mut k: usize = 0;
    while k < letters.len()
        invariant
            k <= letters@.len(),
            letters@ == name@,
            expected@ == seq!['"'] + name@.take(k as int),
        decreases letters@.len() - k,
    {
        expected.push(letters[k]);
        assert(name@.take(k + 1) =~= name@.take(k as int).push(name@[k as int]));
        assert(expected@ =~= seq!['"'] + name@.take(k + 1));
        k = k + 1;
    }
    expected.push('"');
    assert(expected@ =~= quoted_name(name@)) by {
        assert(name@.take(k as int) =~= name@);
    }
    if matches_at(s, j, &expected) {
        Some(j + expected.len())
    } else {
        None
    }
}

/// The value of a hexadecimal digit.
fn hex_digit_value(c: char) -> (value: Option<u32>)
    ensures
        match value {
            Some(v) => hex_value(c) == Some(v as int) && v < 16,
            None => hex_value(c) is None,
        },
{
    if '0' <= c && c <= '9' {
        Some(c as u32 - '0' as u32)
    } else if 'a' <= c && c <= 'f' {
        Some(c as u32 - 'a' as u32 + 10)
    } else if 'A' <= c && c <= 'F' {
        Some(c as u32 - 'A' as u32 + 10)
    } else {
        None
    }
}

/// The code that four hexadecimal digits at position `i` write.
fn take_hex4(s: &Vec<char>, i: usize) -> (code: Option<u32>)
    requires
        i <= s@.len(),
    ensures
        match code {
            Some(v) => hex4_at(s@, i as int) == Some(v as int) && v <= 0xFFFF,
            None => hex4_at(s@, i as int) is None,
        },
{
    if s.len() - i < 4 {
        return None;
    }
    let a = hex_digit_value(s[i])?;
    let b = hex_digit_value(s[i + 1])?;
    let c = hex_digit_value(s[i + 2])?;
    let d = hex_digit_value(s[i + 3])?;
    Some(4096 * a + 256 * b + 16 * c + d)
}

/// The character that the escape sequence at position `i` stands for.
fn take_escape(s: &Vec<char>, i: usize) -> (escape: Option<(char, usize)>)
    requires
        i < s@.len(),
    ensures
        match escape {
            Some((c, end)) => escape_at(s@, i as int) == Some((c, end as int)) && i < end
                <= s@.len(),
            None => escape_at(s@, i as int) is None,
        },
{
    if s.len() - i < 2 {
        return None;
    }
    let e = s[i + 1];
    if e == '"' {
        Some(('"', i + 2))
    } else if e == '\\' {
        Some(('\\', i + 2))
    } else if e == '/' {
        Some(('/', i + 2))
    } else if e == 'b' {
        Some(('\u{8}', i + 2))
    } else if e == 'f' {
        Some(('\u{c}', i + 2))
    } else if e == 'n' {
        Some(('\n', i + 2))
    } else if e == 'r' {
        Some(('\r', i + 2))
    } else if e == 't' {
        Some(('\t', i + 2))
    } else if e == 'u' {
        let code = take_hex4(s, i + 2)?;
        let c = char_of_code(code)?;
        Some((c, i + 6))
    } else {
        None
    }
}

/// Reads a string between double quotes, after any blanks.
#[verifier::loop_isolation(false)]
pub fn parse_string(s: &Vec<char>, i: usize) -> (read: Option<(String, usize)>)
    requires
        i <= s@.len(),
    ensures
        text_read(read) == read_string(s@, i as int),
        read matches Some((_, end)) ==> i < end <= s@.len(),
{
    let start = take_token(s, i, '"')?;
    let mut text: Vec<char> = Vec::new();
    let mut j: usize = start;
    assert(Seq::<char>::empty() + Seq::<char>::empty() =~= Seq::<char>::empty());
    loop
        invariant
            start <= j <= s@.len(),
            i < start,
            string_body(s@, start as int) == prepend(text@, string_body(s@, j as int)),
        decreases s@.len() - j,
    {
        if j >= s.len() {
            return None;
        }
        let c = s[j];
        if c == '"' {
            assert(text@ + Seq::<char>::empty() =~= text@);
            return Some((string_of(&text), j + 1));
        } else if c == '\\' {
            match take_escape(s, j) {
                Some((decoded, end)) => {
                    proof {
                        let rest = string_body(s@, end as int);
                        if rest is Some {
                            let tail = rest.unwrap().0;
                            assert(text@ + (seq![decoded] + tail) =~= text@.push(decoded) + tail);
                        }
                    }
                    text.push(decoded);
                    j = end;
                },
                None => {
                    return None;
                },
            }
        } else if (c as u32) < 0x20 {
            return None;
        } else {
            proof {
                let rest = string_body(s@, j + 1);
                if rest is Some {
                    let tail = rest.unwrap().0;
                    assert(text@ + (seq![c] + tail) =~= text@.push(c) + tail);
                }
            }
            text.push(c);
            j = j + 1;
        }
    }
}

/// Whether a character is a decimal digit.
fn is_decimal_digit(c: char) -> (digit: bool)
    ensures
        digit == is_digit(c),
{
    '0' <= c && c <= '9'
}

/// The value of a run of digits grows with its length.
proof fn lemma_digits_value_grows(s: Seq<char>, i: int, j: int, end: int)
    requires
        0 <= i <= j <= end <= s.len(),
        forall|k: int| i <= k < end ==> is_digit(#[trigger] s[k]),
    ensures
        0 <= digits_value(s, i, j) <= digits_value(s, i, end),
    decreases end - i,
{
    if j < end {
        lemma_digits_value_grows(s, i, j, end - 1);
        assert(is_digit(s[end - 1]));
    } else if i < j {
        lemma_digits_value_grows(s, i, j - 1, j - 1);
        assert(is_digit(s[j - 1]));
    }
}

/// Reads an unsigned integer that fits 64 bits, after any blanks.
#[verifier::loop_isolation(false)]
pub fn parse_u64(s: &Vec<char>, i: usize) -> (read: Option<(u64, usize)>)
    requires
        i <= s@.len(),
    ensures
        u64_read(read) == read_u64(s@, i as int),
        read matches Some((_, end)) ==> i < end <= s@.len(),
{
    let start = skip_blanks(s, i);
    let mut j: usize = start;
    let mut value: u64 = 0;
    proof {
        lemma_digits_end(s@, start as int);
    }
    while j < s.len() && is_decimal_digit(s[j])
        invariant
            start <= j <= s@.len(),
            i <= start,
            j <= digits_end(s@, start as int) <= s@.len(),
            digits_end(s@, start as int) == digits_end(s@, j as int),
            forall|k: int|
                start <= k < digits_end(s@, start as int) ==> is_digit(#[trigger] s@[k]),
            value == digits_value(s@, start as int, j as int),
        decreases s@.len() - j,
    {
        let digit = (s[j] as u32 - '0' as u32) as u64;
        assert(digit == digit_value(s@[j as int]));
        proof {
            lemma_digits_end(s@, j + 1);
        }
        if value > (u64::MAX - digit) / 10 {
            proof {
                lemma_digits_value_grows(
                    s@,
                    start as int,
                    j + 1,
                    digits_end(s@, start as int),
                );
            }
            return None;
        }
        value = value * 10 + digit;
        j = j + 1;
    }
    if j == start {
        None
    } else {
        Some((value, j))
    }
}

/// Reads a timestamp, after any blanks.
#[verifier::loop_isolation(false)]
pub fn parse_timestamp(s: &Vec<char>, i: usize) -> (read: Option<(Timestamp, usize)>)
    requires
        i <= s@.len(),
    ensures
        timestamp_read(read) == read_timestamp(s@, i as int),
        read matches Some((_, end)) ==> i < end <= s@.len(),
        read matches Some((stamp, _)) ==> stamp.is_valid(),
{
    let (secs, point) = parse_u64(s, i)?;
    if !(point < s.len() && s[point] == '.') {
        return Some((Timestamp { secs, nanos: 0 }, point));
    }
    let start = point + 1;
    let mut j: usize = start;
    let mut nanos: u32 = 0;
    proof {
        lemma_digits_end(s@, start as int);
        reveal_with_fuel(pow10, 10);
    }
    while j < s.len() && is_decimal_digit(s[j])
        invariant
            start <= j <= s@.len(),
            j - start <= 9,
            j <= digits_end(s@, start as int) <= s@.len(),
            digits_end(s@, start as int) == digits_end(s@, j as int),
            nanos == digits_value(s@, start as int, j as int),
            nanos < pow10((j - start) as nat),
            pow10((j - start) as nat) <= pow10(9),
            pow10(9) == 1_000_000_000,
        decreases s@.len() - j,
    {
        if j - start == 9 {
            proof {
                lemma_digits_end(s@, j + 1);
            }
            return None;
        }
        let digit = s[j] as u32 - '0' as u32;
        assert(digit == digit_value(s@[j as int]));
        proof {
            lemma_digits_end(s@, j + 1);
            lemma_pow10_grows((j - start + 1) as nat, 9);
        }
        nanos = nanos * 10 + digit;
        j = j + 1;
    }
    if j == start {
        return None;
    }
    let ghost count = j - start;
    let ghost read_value = nanos;
    let mut k: usize = j - start;
    assert(pow10(0) == 1);
    assert(pow10((k - count) as nat) == 1);
    while k < 9
        invariant
            1 <= count <= k <= 9,
            nanos == read_value * pow10((k - count) as nat),
            nanos < pow10(k as nat),
            pow10(k as nat) <= pow10(9),
            pow10(9) == 1_000_000_000,
            read_value < pow10(count as nat),
        decreases 9 - k,
    {
        proof {
            lemma_pow10_grows((k + 1) as nat, 9);
            assert(read_value * pow10((k + 1 - count) as nat) == read_value * pow10(
                (k - count) as nat,
            ) * 10) by (nonlinear_arith)
                requires
                    pow10((k + 1 - count) as nat) == 10 * pow10((k - count) as nat),
            ;
        }
        nanos = nanos * 10;
        k = k + 1;
    }
    Some((Timestamp { secs, nanos }, j))
}

/// A power of ten grows with its exponent.
proof fn lemma_pow10_grows(small: nat, large: nat)
    requires
        small <= large,
    ensures
        0 < pow10(small) <= pow10(large),
    decreases large,
{
    if small < large {
        lemma_pow10_grows(small, (large - 1) as nat);
    } else if small > 0 {
        lemma_pow10_grows((small - 1) as nat, (small - 1) as nat);
    }
}

/// Appends a text as it stands.
pub fn write_text(out: &mut Vec<char>, text: &str)
    ensures
        final(out)@ == old(out)@ + text@,
{
    let letters = chars_of(text);
    let mut k: usize = 0;
    assert(old(out)@ + text@.take(0) =~= old(out)@);
    while k < letters.len()
        invariant
            k <= letters@.len(),
            letters@ == text@,
            out@ == old(out)@ + text@.take(k as int),
        decreases letters@.len() - k,
    {
        out.push(letters[k]);
        assert(old(out)@ + text@.take(k + 1) =~= (old(out)@ + text@.take(k as int)).push(
            text@[k as int],
        ));
        k = k + 1;
    }
    assert(text@.take(k as int) =~= text@);
}

/// Appends a name between double quotes.
pub fn write_name(out: &mut Vec<char>, name: &str)
    ensures
        final(out)@ == old(out)@ + quoted_name(name@),
{
    out.push('"');
    write_text(out, name);
    out.push('"');
    assert(out@ =~= old(out)@ + quoted_name(name@));
}

/// The hexadecimal digit, in lower case, of a value below sixteen.
fn hex_digit_char(value: u8) -> (c: char)
    requires
        value < 16,
    ensures
        c == hex_char(value as int),
{
    if value < 10 {
        (value + 48) as char
    } else {
        (value + 87) as char
    }
}

/// Appends one character as it is written inside a string.
fn write_escaped(out: &mut Vec<char>, c: char)
    ensures
        final(out)@ == old(out)@ + escaped(c),
{
    if c == '"' {
        out.push('\\');
        out.push('"');
    } else if c == '\\' {
        out.push('\\');
        out.push('\\');
    } else if c == '\u{8}' {
        out.push('\\');
        out.push('b');
    } else if c == '\u{c}' {
        out.push('\\');
        out.push('f');
    } else if c == '\n' {
        out.push('\\');
        out.push('n');
    } else if c == '\r' {
        out.push('\\');
        out.push('r');
    } else if c == '\t' {
        out.push('\\');
        out.push('t');
    } else if (c as u32) < 0x20 {
        let code = c as u8;
        out.push('\\');
        out.push('u');
        out.push('0');
        out.push('0');
        out.push(hex_digit_char(code / 16));
        out.push(hex_digit_char(code % 16));
    } else {
        out.push(c);
    }
    assert(out@ =~= old(out)@ + escaped(c));
}

/// Appends a text as a string: escaped, between double quotes.
pub fn write_string(out: &mut Vec<char>, text: &str)
    ensures
        final(out)@ == old(out)@ + quoted(text@),
{
    out.push('"');
    let letters = chars_of(text);
    let mut k: usize = 0;
    assert(escaped_text(text@.take(0)) =~= Seq::<char>::empty());
    while k < letters.len()
        invariant
            k <= letters@.len(),
            letters@ == text@,
            out@ == old(out)@.push('"') + escaped_text(text@.take(k as int)),
        decreases letters@.len() - k,
    {
        proof {
            lemma_escaped_text_push(text@.take(k as int), text@[k as int]);
            assert(text@.take(k + 1) =~= text@.take(k as int).push(text@[k as int]));
        }
        write_escaped(out, letters[k]);
        assert(out@ =~= old(out)@.push('"') + escaped_text(text@.take(k + 1)));
        k = k + 1;
    }
    assert(text@.take(k as int) =~= text@);
    out.push('"');
    assert(out@ =~= old(out)@ + quoted(text@));
}

/// Writing a text with one more character appends that character's escape.
pub proof fn lemma_escaped_text_push(text: Seq<char>, c: char)
    ensures
        escaped_text(text.push(c)) == escaped_text(text) + escaped(c),
    decreases text.len(),
{
    if text.len() == 0 {
        assert(text.push(c).drop_first() =~= Seq::<char>::empty());
        assert(escaped_text(text.push(c)) =~= escaped(c) + escaped_text(Seq::empty()));
        assert(escaped_text(text.push(c)) =~= escaped_text(text) + escaped(c));
    } else {
        assert(text.push(c).drop_first() =~= text.drop_first().push(c));
        lemma_escaped_text_push(text.drop_first(), c);
        assert(escaped_text(text.push(c)) =~= escaped_text(text) + escaped(c));
    }
}

/// Appends a number in decimal.
pub fn write_u64(out: &mut Vec<char>, n: u64)
    ensures
        final(out)@ == old(out)@ + decimal(n as nat),
    decreases n,
{
    if n >= 10 {
        write_u64(out, n / 10);
    }
    out.push(((n % 10) as u8 + 48) as char);
    assert(out@ =~= old(out)@ + decimal(n as nat));
}

/// Appends the last `width` decimal digits of a number, with leading zeros.
fn write_fixed(out: &mut Vec<char>, n: u32, width: u32)
    ensures
        final(out)@ == old(out)@ + fixed_digits(n as nat, width as nat),
    decreases width,
{
    if width > 0 {
        write_fixed(out, n / 10, width - 1);
        out.push(((n % 10) as u8 + 48) as char);
    }
    assert(out@ =~= old(out)@ + fixed_digits(n as nat, width as nat));
}

/// Appends a timestamp: the seconds, a point, and nine digits of nanoseconds.
pub fn write_timestamp(out: &mut Vec<char>, t: Timestamp)
    ensures
        final(out)@ == old(out)@ + timestamp_text(t),
{
    write_u64(out, t.secs);
    out.push('.');
    write_fixed(out, t.nanos, 9);
    assert(out@ =~= old(out)@ + timestamp_text(t));
}

} // verus!
